//! Device keys, certificates, and the fingerprints everything else
//! authenticates against.
//!
//! The model is CA-free. Each device holds one long-lived Ed25519 keypair; its
//! identity *is* the SHA-256 of that key's SubjectPublicKeyInfo (an "SPKI
//! pin"). Certificates are self-signed wrappers around that key and carry no
//! authority of their own. Trust comes from the pin, established once during
//! pairing.
use vstd::prelude::*;

use rcgen::KeyPair;

use sha2::Digest;

use crate::error::Result;
use crate::text::{
    char_is_whitespace, chars_of, is_ascii_hexdigit, is_whitespace, leading_count,
    lemma_leading_count_exact, lemma_trailing_count_exact, push_six_digits, push_str,
    six_digits, string_from_chars, trailing_count, trim, trim_chars,
};

verus! {

// ---------------------------------------------------------------------------
// Outside items
// ---------------------------------------------------------------------------

/// The SHA-256 digest of a byte sequence.
pub uninterp spec fn sha256(data: Seq<u8>) -> Seq<u8>;

/// `sha2::Sha256::digest`: the digest is a function of the input alone,
/// named `sha256`, and is 32 bytes long.
#[verifier::external_body]
fn sha256_digest(data: &[u8]) -> (res: Vec<u8>)
    ensures
        res@ == sha256(data@),
        res@.len() == 32,
{
    sha2::Sha256::digest(data).to_vec()
}

/// The SubjectPublicKeyInfo bytes of a DER certificate, or `None` when the
/// bytes do not parse as an X.509 certificate.
pub uninterp spec fn certificate_spki(der: Seq<u8>) -> Option<Seq<u8>>;

/// `x509_parser::parse_x509_certificate`, keeping the raw SPKI of the parsed
/// certificate (`public_key().raw`). Claimed: the outcome is a function of
/// the bytes alone, named `certificate_spki`; the error text is not.
#[verifier::external_body]
fn parse_certificate_spki(der: &[u8]) -> (res: core::result::Result<Vec<u8>, String>)
    ensures
        match res {
            Ok(spki) => certificate_spki(der@) == Some(spki@),
            Err(_) => certificate_spki(der@) is None,
        },
{
    match x509_parser::parse_x509_certificate(der) {
        Ok((_, cert)) => Ok(cert.public_key().raw.to_vec()),
        Err(err) => Err(err.to_string()),
    }
}

/// The SubjectPublicKeyInfo DER (`public_key_der`) of the key pair that
/// `rcgen::KeyPair::try_from` loads from private key DER, or `None` when it
/// loads none. A function of the bytes alone.
pub uninterp spec fn key_public_der(key_der: Seq<u8>) -> Option<Seq<u8>>;

/// `rcgen::KeyPair::try_from` on private key DER, then `public_key_der`.
/// Claimed: the outcome is `key_public_der` of the bytes.
#[verifier::external_body]
fn public_key_of(key_der: &[u8]) -> (res: Option<Vec<u8>>)
    ensures
        match res {
            Some(spki) => key_public_der(key_der@) == Some(spki@),
            None => key_public_der(key_der@) is None,
        },
{
    KeyPair::try_from(key_der).ok().map(|key_pair| key_pair.public_key_der())
}

/// `rcgen::KeyPair::generate_for(&PKCS_ED25519)`, handed back as its PKCS#8
/// DER (`serialize_der`), or the error's text. The key is random. Claimed
/// only that rcgen loads the DER back: `generate_for` keeps the PKCS#8
/// document it built the key pair from, and `try_from` recognises it.
#[verifier::external_body]
fn generate_ed25519() -> (res: core::result::Result<Vec<u8>, String>)
    ensures
        res matches Ok(der) ==> key_public_der(der@) is Some,
{
    KeyPair::generate_for(&rcgen::PKCS_ED25519).map(|key_pair| key_pair.serialize_der()).map_err(
        |err| err.to_string(),
    )
}

/// The private key DER that `rcgen::KeyPair::from_pem` loads from a PEM text
/// (the `serialize_der` of its result), or `None` when it loads none. A
/// function of the text alone.
pub uninterp spec fn pem_key_der(pem: Seq<char>) -> Option<Seq<u8>>;

/// `rcgen::KeyPair::from_pem`, handed back as its DER, or the error's text.
/// Claimed: the outcome is `pem_key_der` of the text, and a DER it hands out
/// is one that `try_from` loads: `from_pem` decodes the PEM and calls
/// `try_from` on the decoded bytes, which the key pair keeps.
#[verifier::external_body]
fn key_der_from_pem(pem: &str) -> (res: core::result::Result<Vec<u8>, String>)
    ensures
        match res {
            Ok(der) => pem_key_der(pem@) == Some(der@) && key_public_der(der@) is Some,
            Err(_) => pem_key_der(pem@) is None,
        },
{
    KeyPair::from_pem(pem).map(|key_pair| key_pair.serialize_der()).map_err(|err| err.to_string())
}

/// `rcgen::KeyPair::serialize_pem` of the key pair loaded from `key_der`: the
/// DER as a "PRIVATE KEY" PEM. Claimed: `from_pem` loads the same DER back
/// from that text, since the PEM parser returns the encoded bytes and the
/// key pair keeps them.
#[verifier::external_body]
fn pem_of_key_der(key_der: &[u8]) -> (res: String)
    requires
        key_public_der(key_der@) is Some,
    ensures
        pem_key_der(res@) == Some(key_der@),
{
    KeyPair::try_from(key_der).map(|key_pair| key_pair.serialize_pem()).unwrap_or_default()
}

/// The names a DER certificate carries as x509-parser reads them (after
/// `parse_x509_certificate`): the first DNS name among its subject
/// alternative names, and the text of the first common name of its subject.
/// `None` when the bytes do not parse or either name is missing. A function
/// of the bytes alone.
pub uninterp spec fn certificate_names(der: Seq<u8>) -> Option<(Seq<char>, Seq<char>)>;

/// Whether a name has a character that no IP address has, so that rcgen
/// takes it as a DNS name rather than as an address.
pub open spec fn not_an_address(name: Seq<char>) -> bool {
    exists|i: int|
        0 <= i < name.len() && !(is_ascii_hexdigit(#[trigger] name[i]) || name[i] == '.'
            || name[i] == ':')
}

/// `rcgen::CertificateParams::self_signed` with the key pair loaded from
/// `key_der`, on parameters with the given subject alternative name and
/// common name; returns the certificate DER, or the error's text. Claimed:
/// x509-parser reads the key's own SPKI back out of it, since rcgen writes
/// the subject key with the same encoder as `public_key_der` and
/// `public_key().raw` is those bytes; and it reads back the names given.
/// rcgen writes an alternative name that does not parse as an IP address as
/// its only DNS name, and the common name as the subject's only common name
/// (a UTF8String, which x509-parser's `as_str` reads as text).
#[verifier::external_body]
fn self_signed_certificate_der(key_der: &[u8], alt_name: &str, common_name: &str) -> (res:
    core::result::Result<Vec<u8>, String>)
    requires
        key_public_der(key_der@) is Some,
    ensures
        res matches Ok(cert) ==> certificate_spki(cert@) == key_public_der(key_der@),
        not_an_address(alt_name@) ==> (res matches Ok(cert) ==> certificate_names(cert@) == Some(
            (alt_name@, common_name@),
        )),
{
    let key_pair = KeyPair::try_from(key_der).map_err(|err| err.to_string())?;
    let mut params = rcgen::CertificateParams::new(vec![alt_name.to_string()])
        .map_err(|err| err.to_string())?;
    let mut name = rcgen::DistinguishedName::new();
    name.push(rcgen::DnType::CommonName, common_name);
    params.distinguished_name = name;
    let cert = params.self_signed(&key_pair).map_err(|err| err.to_string())?;
    Ok(cert.der().to_vec())
}

// ---------------------------------------------------------------------------
// Hex
// ---------------------------------------------------------------------------

/// The lowercase hex digit for `d < 16`.
pub open spec fn hex_char(d: nat) -> char {
    if d < 10 {
        (d + 48) as char
    } else {
        (d + 87) as char
    }
}

/// The value of a hex digit, either case.
pub open spec fn hex_value(c: char) -> nat {
    if '0' <= c && c <= '9' {
        (c as u32 - 48) as nat
    } else if 'a' <= c && c <= 'f' {
        (c as u32 - 87) as nat
    } else {
        (c as u32 - 55) as nat
    }
}

/// Lowercase hex, two digits per byte, high nibble first.
pub open spec fn hex_lower(bytes: Seq<u8>) -> Seq<char> {
    Seq::new(
        2 * bytes.len(),
        |i: int|
            if i % 2 == 0 {
                hex_char((bytes[i / 2] / 16) as nat)
            } else {
                hex_char((bytes[i / 2] % 16) as nat)
            },
    )
}

/// The bytes that 64 hex digits denote.
pub open spec fn hex_bytes(digits: Seq<char>) -> Seq<u8> {
    Seq::new(
        (digits.len() / 2) as nat,
        |i: int| (hex_value(digits[2 * i]) * 16 + hex_value(digits[2 * i + 1])) as u8,
    )
}

/// What `Fingerprint::parse_hex` accepts: after trimming, exactly 64 hex
/// digits of either case.
pub open spec fn parsed_fingerprint(text: Seq<char>) -> Option<Seq<u8>> {
    let t = trim(text);
    if t.len() == 64 && (forall|i: int| 0 <= i < 64 ==> is_ascii_hexdigit(#[trigger] t[i])) {
        Some(hex_bytes(t))
    } else {
        None
    }
}

/// The short display form `abcd-ef01-2345-6789` of the first eight bytes.
pub open spec fn short_form(bytes: Seq<u8>) -> Seq<char> {
    hex_lower(bytes.subrange(0, 2)) + seq!['-'] + hex_lower(bytes.subrange(2, 4)) + seq!['-']
        + hex_lower(bytes.subrange(4, 6)) + seq!['-'] + hex_lower(bytes.subrange(6, 8))
}

pub(crate) fn hex_digit(d: u8) -> (res: char)
    requires
        d < 16,
    ensures
        res == hex_char(d as nat),
{
    if d < 10 {
        ((d + 48) as u8) as char
    } else {
        ((d + 87) as u8) as char
    }
}

fn push_hex(v: &mut Vec<char>, bytes: &[u8], start: usize, end: usize)
    requires
        start <= end <= bytes@.len(),
    ensures
        final(v)@ == old(v)@ + hex_lower(bytes@.subrange(start as int, end as int)),
{
    let mut i: usize = start;
    while i < end
        invariant
            start <= i <= end <= bytes@.len(),
            v@ == old(v)@ + hex_lower(bytes@.subrange(start as int, i as int)),
        decreases end - i,
    {
        let b = bytes[i];
        v.push(hex_digit(b / 16));
        v.push(hex_digit(b % 16));
        i = i + 1;
        proof {
            let prev = hex_lower(bytes@.subrange(start as int, i - 1));
            let next = hex_lower(bytes@.subrange(start as int, i as int));
            assert(next =~= prev.push(hex_char((b / 16) as nat)).push(hex_char((b % 16) as nat)));
        }
    }
}

fn hex_val(c: char) -> (res: u8)
    requires
        is_ascii_hexdigit(c),
    ensures
        res == hex_value(c),
        res < 16,
{
    let u = c as u32;
    if '0' <= c && c <= '9' {
        (u - 48) as u8
    } else if 'a' <= c && c <= 'f' {
        (u - 87) as u8
    } else {
        (u - 55) as u8
    }
}

fn char_is_hexdigit(c: char) -> (res: bool)
    ensures
        res == is_ascii_hexdigit(c),
{
    ('0' <= c && c <= '9') || ('a' <= c && c <= 'f') || ('A' <= c && c <= 'F')
}

// ---------------------------------------------------------------------------
// Fingerprints
// ---------------------------------------------------------------------------

/// SHA-256 over a SubjectPublicKeyInfo DER. Comparing two of these is the only
/// thing that decides whether a peer is who it claims to be.
#[derive(Clone, Copy, Eq, Hash, Debug)]
pub struct Fingerprint {
    bytes: [u8; 32],
}

impl PartialEq for Fingerprint {
    fn eq(&self, other: &Fingerprint) -> (res: bool) {
        let mut i: usize = 0;
        while i < 32
            invariant
                i <= 32,
                forall|j: int| 0 <= j < i ==> self.bytes@[j] == other.bytes@[j],
            decreases 32 - i,
        {
            if self.bytes[i] != other.bytes[i] {
                return false;
            }
            i = i + 1;
        }
        proof {
            assert(self.bytes@ =~= other.bytes@);
        }
        true
    }
}

impl vstd::std_specs::cmp::PartialEqSpecImpl for Fingerprint {
    open spec fn obeys_eq_spec() -> bool {
        true
    }

    open spec fn eq_spec(&self, other: &Fingerprint) -> bool {
        self@ == other@
    }
}

impl View for Fingerprint {
    type V = Seq<u8>;

    closed spec fn view(&self) -> Seq<u8> {
        self.bytes@
    }
}

/// Lexicographic order on byte sequences (the order of `[u8; 32]`).
pub open spec fn bytes_lt(a: Seq<u8>, b: Seq<u8>) -> bool
    decreases a.len(),
{
    if a.len() == 0 {
        b.len() > 0
    } else if b.len() == 0 {
        false
    } else if a[0] != b[0] {
        a[0] < b[0]
    } else {
        bytes_lt(a.drop_first(), b.drop_first())
    }
}

pub proof fn lemma_bytes_lt_total(a: Seq<u8>, b: Seq<u8>)
    ensures
        a == b || bytes_lt(a, b) || bytes_lt(b, a),
        !(bytes_lt(a, b) && bytes_lt(b, a)),
        !bytes_lt(a, a),
    decreases a.len(),
{
    if a.len() > 0 && b.len() > 0 && a[0] == b[0] {
        lemma_bytes_lt_total(a.drop_first(), b.drop_first());
        if a.drop_first() == b.drop_first() {
            assert(a =~= seq![a[0]] + a.drop_first());
            assert(b =~= seq![b[0]] + b.drop_first());
        }
    } else if a.len() == 0 && b.len() == 0 {
        assert(a =~= b);
    }
    if a.len() > 0 {
        lemma_bytes_lt_total(a.drop_first(), a.drop_first());
    }
}

impl Fingerprint {
    pub proof fn lemma_len(self)
        ensures
            self@.len() == 32,
    {
    }

    /// Builds a fingerprint from 32 bytes.
    fn from_vec(bytes: &Vec<u8>) -> (res: Fingerprint)
        requires
            bytes@.len() == 32,
        ensures
            res@ == bytes@,
    {
        let mut arr: [u8; 32] = [0u8; 32];
        let mut i: usize = 0;
        while i < 32
            invariant
                i <= 32,
                bytes@.len() == 32,
                forall|j: int| 0 <= j < i ==> arr@[j] == bytes@[j],
            decreases 32 - i,
        {
            arr[i] = bytes[i];
            i = i + 1;
        }
        let res = Fingerprint { bytes: arr };
        proof {
            assert(res@ =~= bytes@);
        }
        res
    }

    /// The fingerprint of a SubjectPublicKeyInfo DER: its SHA-256 digest.
    pub fn from_spki_der(spki_der: &[u8]) -> (res: Fingerprint)
        ensures
            res@ == sha256(spki_der@),
    {
        let digest = sha256_digest(spki_der);
        Fingerprint::from_vec(&digest)
    }

    pub fn as_bytes(&self) -> (res: &[u8; 32])
        ensures
            res@ == self@,
    {
        &self.bytes
    }

    /// Full 64-character lowercase hex, for storage and exact comparison.
    pub fn to_hex(&self) -> (res: String)
        ensures
            res@ == hex_lower(self@),
            res@.len() == 64,
    {
        let mut v: Vec<char> = Vec::new();
        push_hex(&mut v, self.bytes.as_slice(), 0, 32);
        proof {
            assert(self.bytes@.subrange(0, 32) =~= self@);
        }
        string_from_chars(&v)
    }

    /// The first eight bytes as `abcd-ef01-2345-6789`: short enough for a
    /// peer list, never to be used for an equality check.
    pub fn to_short(&self) -> (res: String)
        ensures
            res@ == short_form(self@),
    {
        let bytes = self.bytes.as_slice();
        let mut v: Vec<char> = Vec::new();
        push_hex(&mut v, bytes, 0, 2);
        v.push('-');
        push_hex(&mut v, bytes, 2, 4);
        v.push('-');
        push_hex(&mut v, bytes, 4, 6);
        v.push('-');
        push_hex(&mut v, bytes, 6, 8);
        proof {
            assert(v@ =~= short_form(self@));
        }
        string_from_chars(&v)
    }

    /// Parses 64 hex digits (either case, surrounding whitespace ignored).
    pub fn parse_hex(hex: &str) -> (res: Result<Fingerprint>)
        ensures
            match parsed_fingerprint(hex@) {
                Some(b) => res matches Ok(f) && f@ == b,
                None => res matches Err(crate::error::Error::Certificate(_)),
            },
    {
        let t = trim_chars(&chars_of(hex));
        let mut ok = t.len() == 64;
        let mut i: usize = 0;
        while ok && i < t.len()
            invariant
                i <= t.len(),
                ok ==> t@.len() == 64,
                ok ==> forall|j: int| 0 <= j < i ==> is_ascii_hexdigit(#[trigger] t@[j]),
                !ok ==> !(t@.len() == 64 && (forall|j: int|
                    0 <= j < 64 ==> is_ascii_hexdigit(#[trigger] t@[j]))),
            decreases t.len() - i,
        {
            if !char_is_hexdigit(t[i]) {
                ok = false;
            }
            i = i + 1;
        }
        if !ok {
            let mut msg: Vec<char> = Vec::new();
            push_str(&mut msg, "invalid fingerprint: ");
            crate::text::push_all(&mut msg, &t);
            return Err(crate::error::Error::Certificate(string_from_chars(&msg)));
        }
        let mut bytes: Vec<u8> = Vec::new();
        let mut k: usize = 0;
        while k < 32
            invariant
                k <= 32,
                t@.len() == 64,
                forall|j: int| 0 <= j < 64 ==> is_ascii_hexdigit(#[trigger] t@[j]),
                bytes@ == hex_bytes(t@).take(k as int),
            decreases 32 - k,
        {
            let hi = hex_val(t[2 * k]);
            let lo = hex_val(t[2 * k + 1]);
            bytes.push(hi * 16 + lo);
            k = k + 1;
            proof {
                assert(hex_bytes(t@).take(k as int) =~= hex_bytes(t@).take(k - 1).push(
                    hex_bytes(t@)[k - 1],
                ));
            }
        }
        proof {
            assert(hex_bytes(t@).take(32) =~= hex_bytes(t@));
        }
        Ok(Fingerprint::from_vec(&bytes))
    }
}

/// A hex digit is never whitespace, so 64 hex digits trim to themselves.
proof fn lemma_hex_trims_to_itself(bytes: Seq<u8>)
    ensures
        trim(hex_lower(bytes)) == hex_lower(bytes),
{
    let h = hex_lower(bytes);
    assert forall|i: int| 0 <= i < h.len() implies !is_whitespace(#[trigger] h[i]) by {
        let b = bytes[i / 2];
        assert(b / 16 < 16 && b % 16 < 16);
    }
    lemma_leading_count_exact(h, |c: char| is_whitespace(c), 0);
    assert(h.skip(0) =~= h);
    lemma_trailing_count_exact(h, |c: char| is_whitespace(c), h.len() as int);
    assert(h.take(h.len() as int) =~= h);
}

/// A fingerprint's hex form parses back to the same fingerprint.
pub proof fn lemma_hex_round_trip(f: Fingerprint)
    ensures
        parsed_fingerprint(hex_lower(f@)) == Some(f@),
{
    let b = f@;
    let h = hex_lower(b);
    lemma_hex_trims_to_itself(b);
    assert forall|i: int| 0 <= i < 64 implies is_ascii_hexdigit(#[trigger] h[i]) by {
        let x = b[i / 2];
        assert(x / 16 < 16 && x % 16 < 16);
    }
    assert forall|i: int| 0 <= i < 32 implies hex_bytes(h)[i] == b[i] by {
        let x = b[i];
        assert(h[2 * i] == hex_char((x / 16) as nat));
        assert(h[2 * i + 1] == hex_char((x % 16) as nat));
        assert(hex_value(hex_char((x / 16) as nat)) == x / 16);
        assert(hex_value(hex_char((x % 16) as nat)) == x % 16);
    }
    assert(hex_bytes(h) =~= b);
}

// ---------------------------------------------------------------------------
// Pairing code
// ---------------------------------------------------------------------------

/// The domain-separation prefix hashed ahead of the two fingerprints:
/// the ASCII bytes of `fluqsr-pairing-v1`.
pub open spec fn pairing_domain() -> Seq<u8> {
    seq![102, 108, 117, 113, 115, 114, 45, 112, 97, 105, 114, 105, 110, 103, 45, 118, 49]
}

/// What is hashed for a pairing: the prefix, then the two fingerprints in
/// ascending byte order, so both peers hash the same bytes.
pub open spec fn pairing_transcript_of(a: Seq<u8>, b: Seq<u8>) -> Seq<u8> {
    if a == b || bytes_lt(a, b) {
        pairing_domain() + a + b
    } else {
        pairing_domain() + b + a
    }
}

/// The six-digit code a digest yields: its first three bytes big-endian,
/// modulo one million, zero-padded.
pub open spec fn code_of_digest(digest: Seq<u8>) -> Seq<char> {
    six_digits(((digest[0] * 65536 + digest[1] * 256 + digest[2]) % 1000000) as nat)
}

/// The Short Authentication String both sides display during pairing.
pub open spec fn pairing_code_of(a: Seq<u8>, b: Seq<u8>) -> Seq<char> {
    code_of_digest(sha256(pairing_transcript_of(a, b)))
}

fn fingerprint_le(a: &Fingerprint, b: &Fingerprint) -> (res: bool)
    ensures
        res == (a@ == b@ || bytes_lt(a@, b@)),
{
    let mut i: usize = 0;
    while i < 32
        invariant
            i <= 32,
            a@.take(i as int) == b@.take(i as int),
        decreases 32 - i,
    {
        if a.bytes[i] != b.bytes[i] {
            proof {
                lemma_bytes_lt_skip(a@, b@, i as int);
                lemma_bytes_lt_total(a@, b@);
                assert(a@.skip(i as int)[0] == a@[i as int]);
                assert(b@.skip(i as int)[0] == b@[i as int]);
                assert(a@[i as int] != b@[i as int]);
            }
            return a.bytes[i] < b.bytes[i];
        }
        i = i + 1;
        proof {
            assert(a@.take(i as int) =~= a@.take(i - 1).push(a@[i - 1]));
            assert(b@.take(i as int) =~= b@.take(i - 1).push(b@[i - 1]));
        }
    }
    proof {
        assert(a@ =~= a@.take(32));
        assert(b@ =~= b@.take(32));
    }
    true
}

proof fn lemma_bytes_lt_skip(a: Seq<u8>, b: Seq<u8>, i: int)
    requires
        0 <= i <= a.len(),
        i <= b.len(),
        a.take(i) == b.take(i),
    ensures
        bytes_lt(a, b) == bytes_lt(a.skip(i), b.skip(i)),
    decreases i,
{
    if i > 0 {
        assert(a[0] == a.take(i)[0]);
        assert(b[0] == b.take(i)[0]);
        assert(a.drop_first().take(i - 1) =~= a.take(i).drop_first());
        assert(b.drop_first().take(i - 1) =~= b.take(i).drop_first());
        lemma_bytes_lt_skip(a.drop_first(), b.drop_first(), i - 1);
        assert(a.drop_first().skip(i - 1) =~= a.skip(i));
        assert(b.drop_first().skip(i - 1) =~= b.skip(i));
    } else {
        assert(a.skip(0) =~= a);
        assert(b.skip(0) =~= b);
    }
}

/// The bytes hashed for a pairing between `a` and `b`.
pub fn pairing_transcript(a: &Fingerprint, b: &Fingerprint) -> (res: Vec<u8>)
    ensures
        res@ == pairing_transcript_of(a@, b@),
{
    let (first, second) = if fingerprint_le(a, b) {
        (a, b)
    } else {
        (b, a)
    };
    let domain: [u8; 17] = [
        102, 108, 117, 113, 115, 114, 45, 112, 97, 105, 114, 105, 110, 103, 45, 118, 49,
    ];
    let mut v: Vec<u8> = Vec::new();
    let mut i: usize = 0;
    while i < 17
        invariant
            i <= 17,
            domain@ == pairing_domain(),
            v@ == pairing_domain().take(i as int),
        decreases 17 - i,
    {
        v.push(domain[i]);
        i = i + 1;
        proof {
            assert(pairing_domain().take(i as int) =~= pairing_domain().take(i - 1).push(
                pairing_domain()[i - 1],
            ));
        }
    }
    proof {
        assert(pairing_domain().take(17) =~= pairing_domain());
    }
    let ghost base = v@;
    let mut j: usize = 0;
    while j < 32
        invariant
            j <= 32,
            first@.len() == 32,
            second@.len() == 32,
            v@ == base + first@.take(j as int),
        decreases 32 - j,
    {
        v.push(first.bytes[j]);
        j = j + 1;
        proof {
            assert(first@.take(j as int) =~= first@.take(j - 1).push(first@[j - 1]));
        }
    }
    proof {
        assert(first@.take(32) =~= first@);
    }
    let ghost base2 = v@;
    let mut k: usize = 0;
    while k < 32
        invariant
            k <= 32,
            second@.len() == 32,
            v@ == base2 + second@.take(k as int),
        decreases 32 - k,
    {
        v.push(second.bytes[k]);
        k = k + 1;
        proof {
            assert(second@.take(k as int) =~= second@.take(k - 1).push(second@[k - 1]));
        }
    }
    proof {
        assert(second@.take(32) =~= second@);
        assert(v@ =~= pairing_domain() + first@ + second@);
    }
    v
}

/// The six digits a pairing digest is shown as.
pub fn pairing_code_from_digest(digest: &[u8]) -> (res: String)
    requires
        digest@.len() >= 3,
    ensures
        res@ == code_of_digest(digest@),
{
    let value = ((digest[0] as u32) * 65536 + (digest[1] as u32) * 256 + (digest[2] as u32))
        % 1000000;
    let mut v: Vec<char> = Vec::new();
    push_six_digits(&mut v, value);
    proof {
        assert(v@ =~= code_of_digest(digest@));
    }
    string_from_chars(&v)
}

/// Derives the six-digit Short Authentication String both sides display
/// during pairing: a function of *both* fingerprints, in an order that does
/// not depend on who dialled.
pub fn pairing_code(a: &Fingerprint, b: &Fingerprint) -> (res: String)
    ensures
        res@ == pairing_code_of(a@, b@),
{
    let transcript = pairing_transcript(a, b);
    let digest = sha256_digest(transcript.as_slice());
    pairing_code_from_digest(digest.as_slice())
}

/// Both devices of a pairing compute the same code.
pub proof fn lemma_pairing_code_symmetric(a: Fingerprint, b: Fingerprint)
    ensures
        pairing_code_of(a@, b@) == pairing_code_of(b@, a@),
{
    lemma_bytes_lt_total(a@, b@);
    assert(pairing_transcript_of(a@, b@) == pairing_transcript_of(b@, a@));
}

/// A pairing code is always six ASCII digits.
pub proof fn lemma_pairing_code_six_digits(digest: Seq<u8>)
    requires
        digest.len() >= 3,
    ensures
        code_of_digest(digest).len() == 6,
        forall|i: int|
            0 <= i < 6 ==> '0' <= #[trigger] code_of_digest(digest)[i] && code_of_digest(
                digest,
            )[i] <= '9',
{
}

// ---------------------------------------------------------------------------
// Device keys and certificates
// ---------------------------------------------------------------------------

/// The fingerprint of the key that private key DER holds: the SHA-256 of
/// its SubjectPublicKeyInfo.
pub open spec fn key_fingerprint(key_der: Seq<u8>) -> Seq<u8> {
    match key_public_der(key_der) {
        Some(spki) => sha256(spki),
        None => Seq::empty(),
    }
}

/// A device's long-lived keypair, held as its PKCS#8 DER, and the
/// fingerprint of its public key.
pub struct DeviceKey {
    der: Vec<u8>,
    fingerprint: Fingerprint,
}

/// The DER of a device's self-signed certificate and of its private key.
pub struct CertificateBundle {
    pub cert_der: Vec<u8>,
    pub key_der: Vec<u8>,
}

/// The subject alternative name every device certificate carries.
pub const CERTIFICATE_HOST: &'static str = "fluqsr.local";

/// The common name of a device's certificate: `fluqsr:` and its ID.
pub open spec fn common_name_of(device_id: Seq<char>) -> Seq<char> {
    "fluqsr:"@ + device_id
}

/// The common name of a device's certificate.
pub fn common_name(device_id: &str) -> (res: String)
    ensures
        res@ == common_name_of(device_id@),
{
    let mut name: Vec<char> = Vec::new();
    push_str(&mut name, "fluqsr:");
    push_str(&mut name, device_id);
    string_from_chars(&name)
}

impl DeviceKey {
    /// The DER is a key rcgen loads, and the fingerprint is its key's.
    #[verifier::type_invariant]
    closed spec fn loads(self) -> bool {
        &&& key_public_der(self.der@) is Some
        &&& self.fingerprint@ == key_fingerprint(self.der@)
    }

    /// The key as PKCS#8 DER.
    pub closed spec fn key_der(&self) -> Seq<u8> {
        self.der@
    }

    pub closed spec fn spec_fingerprint(&self) -> Fingerprint {
        self.fingerprint
    }

    /// A fresh random Ed25519 key.
    pub fn generate() -> (res: Result<DeviceKey>)
        ensures
            res matches Ok(key) ==> key_public_der(key.key_der()) is Some
                && key.spec_fingerprint()@ == key_fingerprint(key.key_der()),
            res matches Err(e) ==> e is Certificate,
    {
        match generate_ed25519() {
            Ok(der) => Ok(DeviceKey::from_der(der)),
            Err(err) => Err(crate::error::Error::Certificate(err)),
        }
    }

    /// The key stored as PKCS#8 PEM. It loads exactly when rcgen loads a key
    /// from the text, and is then that key.
    pub fn from_pem(pem: &str) -> (res: Result<DeviceKey>)
        ensures
            match pem_key_der(pem@) {
                Some(der) => res matches Ok(key) && key.key_der() == der
                    && key.spec_fingerprint()@ == key_fingerprint(der),
                None => res matches Err(e) && e is Certificate,
            },
            res matches Ok(key) ==> pem_fingerprint(pem@) == Some(key.spec_fingerprint()@),
    {
        match key_der_from_pem(pem) {
            Ok(der) => Ok(DeviceKey::from_der(der)),
            Err(err) => Err(crate::error::Error::Certificate(err)),
        }
    }

    fn from_der(der: Vec<u8>) -> (res: DeviceKey)
        requires
            key_public_der(der@) is Some,
        ensures
            res.key_der() == der@,
            res.spec_fingerprint()@ == key_fingerprint(der@),
    {
        let spki = public_key_of(der.as_slice());
        let fingerprint = match spki {
            Some(spki) => Fingerprint::from_spki_der(spki.as_slice()),
            None => vstd::pervasive::unreached(),
        };
        DeviceKey { der, fingerprint }
    }

    /// The key as PKCS#8 PEM, from which `from_pem` loads it back.
    pub fn to_pem(&self) -> (res: String)
        ensures
            pem_key_der(res@) == Some(self.key_der()),
    {
        proof {
            use_type_invariant(self);
        }
        pem_of_key_der(self.der.as_slice())
    }

    pub fn fingerprint(&self) -> (res: Fingerprint)
        ensures
            res == self.spec_fingerprint(),
            res@ == key_fingerprint(self.key_der()),
    {
        proof {
            use_type_invariant(self);
        }
        self.fingerprint
    }

    /// The self-signed certificate presented on both sides of a connection,
    /// naming the device in its common name. Nothing authenticates against
    /// the subject; the key is what counts, and the certificate carries it.
    pub fn certificate(&self, device_id: &str) -> (res: Result<CertificateBundle>)
        ensures
            res matches Ok(bundle) ==> certificate_spki(bundle.cert_der@) == key_public_der(
                self.key_der(),
            ) && bundle.key_der@ == self.key_der(),
            res matches Ok(bundle) ==> certificate_names(bundle.cert_der@) == Some(
                (CERTIFICATE_HOST@, common_name_of(device_id@)),
            ),
            res matches Err(e) ==> e is Certificate,
    {
        proof {
            use_type_invariant(self);
            reveal_strlit("fluqsr.local");
            assert(!is_ascii_hexdigit(CERTIFICATE_HOST@[1]));
        }
        let common_name = common_name(device_id);
        match self_signed_certificate_der(
            self.der.as_slice(),
            CERTIFICATE_HOST,
            common_name.as_str(),
        ) {
            Ok(cert_der) => Ok(CertificateBundle { cert_der, key_der: copy_bytes(&self.der) }),
            Err(err) => Err(crate::error::Error::Certificate(err)),
        }
    }
}

fn copy_bytes(bytes: &Vec<u8>) -> (res: Vec<u8>)
    ensures
        res@ == bytes@,
{
    let mut out: Vec<u8> = Vec::new();
    let mut i: usize = 0;
    while i < bytes.len()
        invariant
            i <= bytes.len(),
            out@ == bytes@.take(i as int),
        decreases bytes.len() - i,
    {
        out.push(bytes[i]);
        i = i + 1;
        proof {
            assert(out@ =~= bytes@.take(i as int));
        }
    }
    proof {
        assert(out@ =~= bytes@);
    }
    out
}

/// What `fingerprint_from_cert_der` reads out of a certificate: the
/// fingerprint of the key it carries, or `None` when it does not parse.
pub open spec fn certificate_fingerprint(cert_der: Seq<u8>) -> Option<Seq<u8>> {
    match certificate_spki(cert_der) {
        Some(spki) => Some(sha256(spki)),
        None => None,
    }
}

/// The fingerprint of the key `from_pem` loads from a text, or `None` when
/// it loads none.
pub open spec fn pem_fingerprint(pem: Seq<char>) -> Option<Seq<u8>> {
    match pem_key_der(pem) {
        Some(der) => Some(key_fingerprint(der)),
        None => None,
    }
}

/// A key written out as PEM and loaded back has the same fingerprint:
/// whatever text `to_pem` gives for a key, `from_pem` loads that key from it.
pub proof fn lemma_key_survives_pem(key_der: Seq<u8>, pem: Seq<char>)
    requires
        pem_key_der(pem) == Some(key_der),
    ensures
        pem_fingerprint(pem) == Some(key_fingerprint(key_der)),
{
}

/// The certificate a key signs pins that key: the fingerprint read back
/// from it is the key's own fingerprint.
pub proof fn lemma_certificate_pins_its_key(key_der: Seq<u8>, cert_der: Seq<u8>)
    requires
        key_public_der(key_der) is Some,
        certificate_spki(cert_der) == key_public_der(key_der),
    ensures
        certificate_fingerprint(cert_der) == Some(key_fingerprint(key_der)),
{
}

/// The SPKI fingerprint of a peer's certificate. The key, not the surrounding
/// certificate encoding, is the stable identity.
pub fn fingerprint_from_cert_der(cert_der: &[u8]) -> (res: Result<Fingerprint>)
    ensures
        match certificate_fingerprint(cert_der@) {
            Some(fingerprint) => res matches Ok(f) && f@ == fingerprint,
            None => res matches Err(crate::error::Error::Certificate(_)),
        },
{
    match parse_certificate_spki(cert_der) {
        Ok(spki) => Ok(Fingerprint::from_spki_der(spki.as_slice())),
        Err(text) => {
            let mut msg: Vec<char> = Vec::new();
            push_str(&mut msg, "could not parse peer certificate: ");
            push_str(&mut msg, text.as_str());
            Err(crate::error::Error::Certificate(string_from_chars(&msg)))
        },
    }
}

} // verus!
