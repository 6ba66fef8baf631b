//! Turning attacker-controlled strings into safe relative paths.
//!
//! Every path in an incoming transfer is chosen by the sender, so this module
//! treats all of it as hostile: a transfer may only ever create files
//! *underneath* the receive directory. A relative path is modelled as its
//! sequence of components, each a `Seq<char>`.
//!
//! Three defences:
//!   1. reject structurally dangerous paths outright (`safe_relative_path`);
//!   2. sanitize each surviving component (`sanitize_component`);
//!   3. re-check the joined result against the resolved root
//!      (`resolve_within`).
use vstd::prelude::*;

use crate::device::new_uuid;
use crate::error::{Error, Result};
use crate::settings::joined;
use crate::text::{
    ascii_upper, char_ascii_upper, char_is_control, char_utf8_len, chars_of, is_ascii_alphabetic,
    is_control, leading_count, lemma_leading_count_exact, lemma_prefix_utf8_len_le,
    lemma_trailing_count_bound, lemma_trailing_count_exact, lemma_utf8_len_concat,
    lemma_utf8_len_take_succ, char_len, decimal, lemma_decimal_injective, push_all, push_decimal, str_eq, push_str, string_from_chars, string_of,
    trailing_count, trim, trim_chars, trim_end_by, utf8_len, utf8_len_within,
};

verus! {

/// Cap, in bytes, on a single path component.
pub const MAX_COMPONENT_LEN: usize = 200;

/// Cap, in bytes, on the whole relative path.
pub const MAX_RELATIVE_LEN: usize = 1024;

/// Extensions longer than this (in bytes) are not preserved by truncation.
pub const MAX_KEPT_EXTENSION_LEN: usize = 16;

// ---------------------------------------------------------------------------
// Specification
// ---------------------------------------------------------------------------

/// Separators, `:` (NTFS alternate data streams), characters Windows refuses
/// in names, and control characters all become `_`.
pub open spec fn replaced_char(c: char) -> char {
    if c == '/' || c == '\\' || c == ':' || c == '*' || c == '?' || c == '"' || c == '<' || c
        == '>' || c == '|' || is_control(c) {
        '_'
    } else {
        c
    }
}

pub open spec fn is_space_or_dot(c: char) -> bool {
    c == ' ' || c == '.'
}

pub open spec fn is_not_dot(c: char) -> bool {
    c != '.'
}

/// A component after character replacement and trailing dot/space removal.
pub open spec fn cleaned(segment: Seq<char>) -> Seq<char> {
    trim_end_by(segment.map_values(|c: char| replaced_char(c)), |c: char| is_space_or_dot(c))
}

/// The part of a name before its first dot.
pub open spec fn stem_before_first_dot(name: Seq<char>) -> Seq<char> {
    name.take(leading_count(name, |c: char| is_not_dot(c)) as int)
}

/// The Windows device names (`CON`, `PRN`, `AUX`, `NUL`, `COM1`..`COM9`,
/// `LPT1`..`LPT9`), compared without regard to ASCII case.
pub open spec fn is_reserved_device_name(stem: Seq<char>) -> bool {
    let u = stem.map_values(|c: char| ascii_upper(c));
    u == seq!['C', 'O', 'N'] || u == seq!['P', 'R', 'N'] || u == seq!['A', 'U', 'X'] || u
        == seq!['N', 'U', 'L'] || (u.len() == 4 && (u.take(3) == seq!['C', 'O', 'M'] || u.take(3)
        == seq!['L', 'P', 'T']) && '1' <= u[3] && u[3] <= '9')
}

/// How many characters of `s` are kept when it is cut to at most `max`
/// bytes: characters are dropped from the end until it fits.
pub open spec fn floor_len(s: Seq<char>, max: nat) -> nat
    decreases s.len(),
{
    if utf8_len(s) <= max || s.len() == 0 {
        s.len()
    } else {
        floor_len(s.drop_last(), max)
    }
}

/// `s` cut to at most `max` bytes without splitting a character.
pub open spec fn floor_prefix(s: Seq<char>, max: nat) -> Seq<char> {
    s.take(floor_len(s, max) as int)
}

/// Index of the last dot in `name`, when there is one.
pub open spec fn last_dot(name: Seq<char>) -> int {
    name.len() - trailing_count(name, |c: char| is_not_dot(c)) - 1
}

/// Whether `name` has an extension in the sense of `Path::extension`: a last
/// dot that is not the first character, and a name other than `..`.
pub open spec fn has_extension(name: Seq<char>) -> bool {
    last_dot(name) > 0 && name != seq!['.', '.']
}

pub open spec fn extension_of(name: Seq<char>) -> Seq<char> {
    name.skip(last_dot(name) + 1)
}

pub open spec fn stem_of(name: Seq<char>) -> Seq<char> {
    name.take(last_dot(name))
}

/// A name shortened to at most `max` bytes, keeping an extension of up to
/// sixteen bytes.
pub open spec fn truncated(name: Seq<char>, max: nat) -> Seq<char> {
    if has_extension(name) && utf8_len(extension_of(name)) <= MAX_KEPT_EXTENSION_LEN {
        let ext = extension_of(name);
        let room: nat = if max >= utf8_len(ext) + 1 {
            (max - utf8_len(ext) - 1) as nat
        } else {
            0
        };
        floor_prefix(stem_of(name), room) + seq!['.'] + ext
    } else {
        floor_prefix(name, max)
    }
}

/// A name with `_` in front when its stem is a Windows device name.
pub open spec fn escaped_name(name: Seq<char>) -> Seq<char> {
    if is_reserved_device_name(stem_before_first_dot(name)) {
        seq!['_'] + name
    } else {
        name
    }
}

/// What one path segment becomes on disk, or `None` when it is refused. A
/// name cut to fit is trimmed of trailing dots and spaces again (Windows
/// would drop them, so what is checked is what lands), refused when nothing
/// is left, and escaped again should the cut leave a bare device name.
pub open spec fn sanitized(segment: Seq<char>) -> Option<Seq<char>> {
    let c = cleaned(segment);
    if segment.len() == 0 || c.len() == 0 || c == seq!['.'] || c == seq!['.', '.'] {
        None
    } else {
        let escaped = escaped_name(c);
        if utf8_len(escaped) > MAX_COMPONENT_LEN {
            let t = trim_end_by(
                truncated(escaped, MAX_COMPONENT_LEN as nat),
                |ch: char| is_space_or_dot(ch),
            );
            if t.len() == 0 {
                None
            } else {
                Some(escaped_name(t))
            }
        } else {
            Some(escaped)
        }
    }
}

/// `str::split(sep)`: the pieces between separators, in order. There is
/// always at least one piece.
pub open spec fn split(s: Seq<char>, sep: char) -> Seq<Seq<char>>
    decreases s.len(),
{
    if s.len() == 0 {
        seq![Seq::<char>::empty()]
    } else {
        let prev = split(s.drop_last(), sep);
        if s.last() == sep {
            prev.push(Seq::<char>::empty())
        } else {
            prev.update(prev.len() - 1, prev.last().push(s.last()))
        }
    }
}

/// One step of turning segments into components: empty and `.` segments
/// vanish, `..` is refused, anything else is sanitized.
pub open spec fn component_step(
    acc: Option<Seq<Seq<char>>>,
    segment: Seq<char>,
) -> Option<Seq<Seq<char>>> {
    match acc {
        None => None,
        Some(prev) => if segment.len() == 0 || segment == seq!['.'] {
            Some(prev)
        } else if segment == seq!['.', '.'] {
            None
        } else {
            match sanitized(segment) {
                None => None,
                Some(c) => Some(prev.push(c)),
            }
        },
    }
}

pub open spec fn components(segments: Seq<Seq<char>>) -> Option<Seq<Seq<char>>>
    decreases segments.len(),
{
    if segments.len() == 0 {
        Some(Seq::empty())
    } else {
        component_step(components(segments.drop_last()), segments.last())
    }
}

/// Backslashes read as separators.
pub open spec fn normalized(raw: Seq<char>) -> Seq<char> {
    raw.map_values(|c: char| if c == '\\' { '/' } else { c })
}

/// Whether a raw path is refused before its segments are looked at: blank,
/// over-long, holding a NUL, absolute (or UNC), or starting with a drive.
pub open spec fn structurally_unsafe(raw: Seq<char>) -> bool {
    let n = normalized(raw);
    ||| trim(raw).len() == 0
    ||| utf8_len(raw) > MAX_RELATIVE_LEN
    ||| raw.contains('\0')
    ||| (n.len() > 0 && n[0] == '/')
    ||| (n.len() >= 2 && is_ascii_alphabetic(n[0]) && n[1] == ':')
}

/// The components a raw sender path is accepted as, or `None` when it is
/// refused.
pub open spec fn safe_path(raw: Seq<char>) -> Option<Seq<Seq<char>>> {
    if structurally_unsafe(raw) {
        None
    } else {
        match components(split(normalized(raw), '/')) {
            Some(c) => if c.len() == 0 {
                None
            } else {
                Some(c)
            },
            None => None,
        }
    }
}

// ---------------------------------------------------------------------------
// Lemmas
// ---------------------------------------------------------------------------

pub proof fn lemma_split_nonempty(s: Seq<char>, sep: char)
    ensures
        split(s, sep).len() >= 1,
    decreases s.len(),
{
    if s.len() > 0 {
        lemma_split_nonempty(s.drop_last(), sep);
    }
}

/// The number of characters kept by `floor_len` is the longest prefix that
/// fits.
pub proof fn lemma_floor_len_exact(s: Seq<char>, max: nat, k: int)
    requires
        0 <= k <= s.len(),
        utf8_len(s.take(k)) <= max,
        k == s.len() || utf8_len(s.take(k + 1)) > max,
    ensures
        floor_len(s, max) == k,
    decreases s.len(),
{
    if utf8_len(s) <= max {
        if k < s.len() {
            lemma_prefix_utf8_len_le(s, k + 1);
        }
    } else {
        if k == s.len() {
            assert(s.take(k) =~= s);
        }
        let d = s.drop_last();
        assert(d.take(k) =~= s.take(k));
        if k + 1 <= d.len() {
            assert(d.take(k + 1) =~= s.take(k + 1));
        }
        lemma_floor_len_exact(d, max, k);
    }
}

pub proof fn lemma_floor_len_bound(s: Seq<char>, max: nat)
    ensures
        floor_len(s, max) <= s.len(),
        utf8_len(s.take(floor_len(s, max) as int)) <= max || floor_len(s, max) == 0,
    decreases s.len(),
{
    if utf8_len(s) <= max || s.len() == 0 {
        assert(s.take(s.len() as int) =~= s);
    } else {
        lemma_floor_len_bound(s.drop_last(), max);
        assert(s.drop_last().take(floor_len(s, max) as int) =~= s.take(floor_len(s, max) as int));
    }
}

/// A character that every supported platform accepts in a file name and
/// that cannot change which directory a name lands in: no separator, no
/// drive colon, none of `* ? " < > |`, and no control character.
pub open spec fn safe_char(c: char) -> bool {
    &&& c != '/'
    &&& c != '\\'
    &&& c != ':'
    &&& c != '*'
    &&& c != '?'
    &&& c != '"'
    &&& c != '<'
    &&& c != '>'
    &&& c != '|'
    &&& !is_control(c)
}

/// A component that can only name an entry inside its own directory: not
/// empty, not `.` or `..`, and made of safe characters only.
pub open spec fn plain_component(x: Seq<char>) -> bool {
    &&& x.len() > 0
    &&& x != seq!['.']
    &&& x != seq!['.', '.']
    &&& forall|i: int| 0 <= i < x.len() ==> safe_char(#[trigger] x[i])
}

proof fn lemma_cleaned_chars_safe(segment: Seq<char>)
    ensures
        forall|i: int|
            0 <= i < cleaned(segment).len() ==> safe_char(#[trigger] cleaned(segment)[i]),
{
    let mapped = segment.map_values(|c: char| replaced_char(c));
    lemma_trailing_count_bound(mapped, |c: char| is_space_or_dot(c));
    assert forall|i: int| 0 <= i < cleaned(segment).len() implies safe_char(
        #[trigger] cleaned(segment)[i],
    ) by {
        assert(cleaned(segment)[i] == mapped[i]);
        assert(mapped[i] == replaced_char(segment[i]));
    }
}

/// No character takes more than four bytes.
proof fn lemma_utf8_len_at_most_four_per_char(s: Seq<char>)
    ensures
        utf8_len(s) <= 4 * s.len(),
    decreases s.len(),
{
    if s.len() > 0 {
        lemma_utf8_len_at_most_four_per_char(s.drop_last());
    }
}

/// Cutting a name that is too long for `max` (at least 12) bytes keeps at
/// least three characters.
proof fn lemma_floor_len_long(s: Seq<char>, max: nat)
    requires
        utf8_len(s) > max,
        max >= 12,
    ensures
        3 <= floor_len(s, max) <= s.len(),
    decreases s.len(),
{
    let d = s.drop_last();
    assert(utf8_len(s) == utf8_len(d) + char_len(s.last()));
    if utf8_len(d) > max {
        lemma_floor_len_long(d, max);
    } else {
        lemma_utf8_len_at_most_four_per_char(d);
    }
}

/// Whatever a segment is sanitized to is a plain component.
#[verifier::spinoff_prover]
pub proof fn lemma_sanitized_is_plain(segment: Seq<char>)
    requires
        sanitized(segment) is Some,
    ensures
        plain_component(sanitized(segment)->0),
        !is_space_or_dot((sanitized(segment)->0).last()),
{
    let c = cleaned(segment);
    lemma_cleaned_chars_safe(segment);
    let escaped = escaped_name(c);
    let mapped = segment.map_values(|ch: char| replaced_char(ch));
    lemma_trailing_count_bound(mapped, |ch: char| is_space_or_dot(ch));
    assert(c.last() == mapped[c.len() - 1]);
    assert(escaped.last() == c.last());
    assert forall|i: int| 0 <= i < escaped.len() implies safe_char(#[trigger] escaped[i]) by {
        if is_reserved_device_name(stem_before_first_dot(c)) && i > 0 {
            assert(escaped[i] == c[i - 1]);
        }
    }
    assert(escaped != seq!['.']) by {
        if is_reserved_device_name(stem_before_first_dot(c)) {
            assert(escaped[0] == '_');
        }
    }
    assert(escaped != seq!['.', '.']) by {
        if is_reserved_device_name(stem_before_first_dot(c)) {
            assert(escaped[0] == '_');
        }
    }
    if utf8_len(escaped) > MAX_COMPONENT_LEN {
        let x = truncated(escaped, MAX_COMPONENT_LEN as nat);
        if has_extension(escaped) && utf8_len(extension_of(escaped)) <= MAX_KEPT_EXTENSION_LEN {
            let ld = last_dot(escaped);
            let ext = extension_of(escaped);
            let stem = stem_of(escaped);
            lemma_trailing_count_bound(escaped, |ch: char| is_not_dot(ch));
            assert(escaped[ld] == '.');
            assert(escaped =~= stem + seq!['.'] + ext);
            lemma_utf8_len_concat(stem + seq!['.'], ext);
            lemma_utf8_len_concat(stem, seq!['.']);
            assert(('.' as u32) == 46);
            assert(char_len('.') == 1);
            assert(utf8_len(seq!['.']) == 1) by {
                let dot = seq!['.'];
                assert(dot.drop_last() =~= Seq::<char>::empty());
                assert(utf8_len(dot.drop_last()) == 0);
                assert(dot.last() == '.');
                assert(utf8_len(dot) == utf8_len(dot.drop_last()) + char_len(dot.last()));
            }
            assert(utf8_len(escaped) == utf8_len(stem) + 1 + utf8_len(ext));
            let room: nat = (MAX_COMPONENT_LEN - utf8_len(ext) - 1) as nat;
            lemma_floor_len_long(stem, room);
            let fp = floor_prefix(stem, room);
            assert(x =~= fp + seq!['.'] + ext);
            assert forall|i: int| 0 <= i < x.len() implies safe_char(#[trigger] x[i]) by {
                if i < fp.len() {
                    assert(x[i] == escaped[i]);
                } else if i > fp.len() {
                    assert(x[i] == escaped[ld + 1 + (i - fp.len() - 1)]);
                }
            }
            assert(x.len() >= 3);
            assert(plain_component(x));
        } else {
            lemma_floor_len_long(escaped, MAX_COMPONENT_LEN as nat);
            assert(x == floor_prefix(escaped, MAX_COMPONENT_LEN as nat));
            assert forall|i: int| 0 <= i < x.len() implies safe_char(#[trigger] x[i]) by {
                assert(x[i] == escaped[i]);
            }
            assert(plain_component(x));
        }
        let t = trim_end_by(x, |ch: char| is_space_or_dot(ch));
        lemma_trailing_count_bound(x, |ch: char| is_space_or_dot(ch));
        if t.len() > 0 {
            let r = escaped_name(t);
            assert(t.last() == x[t.len() - 1]);
            assert(r.last() == t.last());
            assert forall|i: int| 0 <= i < r.len() implies safe_char(#[trigger] r[i]) by {
                if is_reserved_device_name(stem_before_first_dot(t)) {
                    if i > 0 {
                        assert(r[i] == x[i - 1]);
                    }
                } else {
                    assert(r[i] == x[i]);
                }
            }
            assert(r != seq!['.']) by {
                if r =~= seq!['.'] {
                    assert(r.last() == '.');
                }
            }
            assert(r != seq!['.', '.']) by {
                if r =~= seq!['.', '.'] {
                    assert(r.last() == '.');
                }
            }
            assert(sanitized(segment)->0 == r);
        }
    } else {
        assert(sanitized(segment)->0 == escaped);
    }
}

/// A segment that is already fit to be a file name on every platform (safe
/// characters only, no trailing dot or space, no Windows device name, at most
/// 200 bytes) is kept exactly as it is.
pub proof fn lemma_clean_segment_kept(segment: Seq<char>)
    requires
        segment.len() > 0,
        forall|i: int| 0 <= i < segment.len() ==> safe_char(#[trigger] segment[i]),
        !is_space_or_dot(segment.last()),
        !is_reserved_device_name(stem_before_first_dot(segment)),
        utf8_len(segment) <= 200,
    ensures
        sanitized(segment) == Some(segment),
{
    let mapped = segment.map_values(|c: char| replaced_char(c));
    assert forall|i: int| 0 <= i < segment.len() implies #[trigger] mapped[i] == segment[i] by {
        assert(safe_char(segment[i]));
    }
    assert(mapped =~= segment);
    lemma_trailing_count_exact(mapped, |c: char| is_space_or_dot(c), mapped.len() as int);
    assert(cleaned(segment) =~= segment);
    assert(segment != seq!['.']) by {
        if segment =~= seq!['.'] {
            assert(segment.last() == '.');
        }
    }
    assert(segment != seq!['.', '.']) by {
        if segment =~= seq!['.', '.'] {
            assert(segment.last() == '.');
        }
    }
}

/// Every component a list of segments turns into is plain.
proof fn lemma_components_plain(segments: Seq<Seq<char>>)
    requires
        components(segments) is Some,
    ensures
        forall|i: int|
            0 <= i < (components(segments)->0).len() ==> plain_component(
                #[trigger] (components(segments)->0)[i],
            ),
    decreases segments.len(),
{
    if segments.len() > 0 {
        let prev = components(segments.drop_last());
        let seg = segments.last();
        assert(prev is Some);
        lemma_components_plain(segments.drop_last());
        if !(seg.len() == 0 || seg == seq!['.']) {
            lemma_sanitized_is_plain(seg);
        }
    }
}

/// An accepted path names something strictly below the directory it is
/// joined to: it has at least one component, and each one is plain.
pub proof fn lemma_accepted_path_stays_below(raw: Seq<char>)
    requires
        safe_path(raw) is Some,
    ensures
        (safe_path(raw)->0).len() > 0,
        forall|i: int|
            0 <= i < (safe_path(raw)->0).len() ==> plain_component(
                #[trigger] (safe_path(raw)->0)[i],
            ),
{
    lemma_components_plain(split(normalized(raw), '/'));
}

// ---------------------------------------------------------------------------
// Implementation
// ---------------------------------------------------------------------------

/// How `{:?}` shows a string: quoted, with quotes, backslashes and
/// characters that do not print escaped, as `str`'s `Debug` does (by
/// Unicode tables this library does not restate).
pub uninterp spec fn debug_str(s: Seq<char>) -> Seq<char>;

/// `format!("{s:?}")`: the text is a function of the string alone, named
/// `debug_str`; nothing more of it is claimed.
#[verifier::external_body]
fn debug_quoted(s: &str) -> (res: String)
    ensures
        res@ == debug_str(s@),
{
    format!("{s:?}")
}

/// The refusal of a sender path: the path as `{:?}` shows it, and why.
fn refusal(raw: &str, reason: &str) -> (res: Error)
    ensures
        res matches Error::UnsafePath(m) && m@ == debug_str(raw@) + ": "@ + reason@,
{
    proof {
        reveal_strlit(": ");
    }
    let mut msg: Vec<char> = Vec::new();
    let quoted = debug_quoted(raw);
    push_str(&mut msg, quoted.as_str());
    push_str(&mut msg, ": ");
    push_str(&mut msg, reason);
    Error::UnsafePath(string_from_chars(&msg))
}

fn refuse<T>(raw: &str, reason: &str) -> (res: Result<T>)
    ensures
        res matches Err(Error::UnsafePath(m)) && m@ == debug_str(raw@) + ": "@ + reason@,
{
    Err(refusal(raw, reason))
}

/// Why a segment is refused: it is empty, or nothing usable is left of it.
pub open spec fn segment_refusal(segment: Seq<char>) -> Seq<char> {
    if segment.len() == 0 {
        "empty path component"@
    } else {
        "component "@ + debug_str(segment) + " sanitizes to nothing usable"@
    }
}

/// The refusal of a segment that leaves nothing usable.
fn unusable(segment: &str) -> (res: Error)
    requires
        segment@.len() > 0,
    ensures
        res matches Error::UnsafePath(m) && m@ == segment_refusal(segment@),
{
    let mut msg: Vec<char> = Vec::new();
    push_str(&mut msg, "component ");
    let quoted = debug_quoted(segment);
    push_str(&mut msg, quoted.as_str());
    push_str(&mut msg, " sanitizes to nothing usable");
    Error::UnsafePath(string_from_chars(&msg))
}

fn is_single(v: &Vec<char>, c: char) -> (res: bool)
    ensures
        res == (v@ == seq![c]),
{
    let r = v.len() == 1 && v[0] == c;
    proof {
        if v.len() == 1 && v[0] == c {
            assert(v@ =~= seq![c]);
        }
    }
    r
}

fn is_double_dot(v: &Vec<char>) -> (res: bool)
    ensures
        res == (v@ == seq!['.', '.']),
{
    let r = v.len() == 2 && v[0] == '.' && v[1] == '.';
    proof {
        if r {
            assert(v@ =~= seq!['.', '.']);
        }
    }
    r
}

fn replace_char(c: char) -> (res: char)
    ensures
        res == replaced_char(c),
{
    if c == '/' || c == '\\' || c == ':' || c == '*' || c == '?' || c == '"' || c == '<' || c
        == '>' || c == '|' || char_is_control(c) {
        '_'
    } else {
        c
    }
}

#[verifier::spinoff_prover]
fn is_reserved_stem(stem: &Vec<char>) -> (res: bool)
    ensures
        res == is_reserved_device_name(stem@),
{
    let ghost u = stem@.map_values(|c: char| ascii_upper(c));
    let n = stem.len();
    if n != 3 && n != 4 {
        proof {
            assert(u.len() == n);
            if u == seq!['C', 'O', 'N'] || u == seq!['P', 'R', 'N'] || u == seq!['A', 'U', 'X']
                || u == seq!['N', 'U', 'L'] {
                assert(u.len() == 3);
            }
        }
        return false;
    }
    let a = char_ascii_upper(stem[0]);
    let b = char_ascii_upper(stem[1]);
    let c = char_ascii_upper(stem[2]);
    proof {
        assert(u[0] == a && u[1] == b && u[2] == c);
    }
    if n == 3 {
        let r = (a == 'C' && b == 'O' && c == 'N') || (a == 'P' && b == 'R' && c == 'N') || (a
            == 'A' && b == 'U' && c == 'X') || (a == 'N' && b == 'U' && c == 'L');
        proof {
            if a == 'C' && b == 'O' && c == 'N' {
                assert(u =~= seq!['C', 'O', 'N']);
            }
            if a == 'P' && b == 'R' && c == 'N' {
                assert(u =~= seq!['P', 'R', 'N']);
            }
            if a == 'A' && b == 'U' && c == 'X' {
                assert(u =~= seq!['A', 'U', 'X']);
            }
            if a == 'N' && b == 'U' && c == 'L' {
                assert(u =~= seq!['N', 'U', 'L']);
            }
            if !r {
                assert(u != seq!['C', 'O', 'N'] ==> true);
                assert(seq!['C', 'O', 'N'][0] == 'C');
                assert(seq!['P', 'R', 'N'][0] == 'P');
                assert(seq!['A', 'U', 'X'][0] == 'A');
                assert(seq!['N', 'U', 'L'][0] == 'N');
                assert(seq!['C', 'O', 'N'][1] == 'O');
                assert(seq!['P', 'R', 'N'][1] == 'R');
                assert(seq!['A', 'U', 'X'][1] == 'U');
                assert(seq!['N', 'U', 'L'][1] == 'U');
                assert(seq!['C', 'O', 'N'][2] == 'N');
                assert(seq!['P', 'R', 'N'][2] == 'N');
                assert(seq!['A', 'U', 'X'][2] == 'X');
                assert(seq!['N', 'U', 'L'][2] == 'L');
            }
        }
        return r;
    }
    let d = char_ascii_upper(stem[3]);
    let r = ((a == 'C' && b == 'O' && c == 'M') || (a == 'L' && b == 'P' && c == 'T')) && '1'
        <= d && d <= '9';
    proof {
        assert(u[3] == d);
        if a == 'C' && b == 'O' && c == 'M' {
            assert(u.take(3) =~= seq!['C', 'O', 'M']);
        }
        if a == 'L' && b == 'P' && c == 'T' {
            assert(u.take(3) =~= seq!['L', 'P', 'T']);
        }
        assert(seq!['C', 'O', 'M'][0] == 'C');
        assert(seq!['L', 'P', 'T'][0] == 'L');
        assert(seq!['C', 'O', 'M'][1] == 'O');
        assert(seq!['L', 'P', 'T'][1] == 'P');
        assert(seq!['C', 'O', 'M'][2] == 'M');
        assert(seq!['L', 'P', 'T'][2] == 'T');
        assert(u.take(3)[0] == a && u.take(3)[1] == b && u.take(3)[2] == c);
    }
    r
}

/// Cuts `value` to at most `max_len` bytes without splitting a character.
fn floor_char_boundary(value: &Vec<char>, max_len: usize) -> (res: Vec<char>)
    ensures
        res@ == floor_prefix(value@, max_len as nat),
{
    let mut total: usize = 0;
    let mut k: usize = 0;
    while k < value.len()
        invariant
            k <= value.len(),
            total == utf8_len(value@.take(k as int)),
            total <= max_len,
        ensures
            k <= value.len(),
            total == utf8_len(value@.take(k as int)),
            total <= max_len,
            k == value.len() || utf8_len(value@.take(k + 1)) > max_len,
        decreases value.len() - k,
    {
        proof {
            lemma_utf8_len_take_succ(value@, k as int);
        }
        let w = char_utf8_len(value[k]);
        if w > max_len - total {
            break;
        }
        total = total + w;
        k = k + 1;
    }
    proof {
        lemma_floor_len_exact(value@, max_len as nat, k as int);
    }
    let mut res: Vec<char> = Vec::new();
    let mut i: usize = 0;
    while i < k
        invariant
            i <= k <= value.len(),
            res@ == value@.take(i as int),
        decreases k - i,
    {
        res.push(value[i]);
        i = i + 1;
        proof {
            assert(value@.take(i as int) =~= value@.take(i - 1).push(value@[i - 1]));
        }
    }
    res
}

/// The characters of `v` from `start` to the end.
fn suffix_from(v: &Vec<char>, start: usize) -> (res: Vec<char>)
    requires
        start <= v.len(),
    ensures
        res@ == v@.skip(start as int),
{
    let mut res: Vec<char> = Vec::new();
    let mut i: usize = start;
    while i < v.len()
        invariant
            start <= i <= v.len(),
            res@ == v@.subrange(start as int, i as int),
        decreases v.len() - i,
    {
        res.push(v[i]);
        i = i + 1;
        proof {
            assert(v@.subrange(start as int, i as int) =~= v@.subrange(start as int, i - 1).push(
                v@[i - 1],
            ));
        }
    }
    res
}

/// The first `end` characters of `v`.
fn prefix_to(v: &Vec<char>, end: usize) -> (res: Vec<char>)
    requires
        end <= v.len(),
    ensures
        res@ == v@.take(end as int),
{
    let mut res: Vec<char> = Vec::new();
    let mut i: usize = 0;
    while i < end
        invariant
            i <= end <= v.len(),
            res@ == v@.take(i as int),
        decreases end - i,
    {
        res.push(v[i]);
        i = i + 1;
        proof {
            assert(v@.take(i as int) =~= v@.take(i - 1).push(v@[i - 1]));
        }
    }
    res
}

/// Shortens an over-long name without losing its extension.
fn truncate_preserving_extension(name: &Vec<char>, max_len: usize) -> (res: Vec<char>)
    ensures
        res@ == truncated(name@, max_len as nat),
{
    let n = name.len();
    // Count the trailing characters that are not dots.
    let mut t: usize = 0;
    while t < n && name[n - 1 - t] != '.'
        invariant
            t <= n,
            n == name.len(),
            forall|i: int| n - t <= i < n ==> is_not_dot(#[trigger] name@[i]),
        decreases n - t,
    {
        t = t + 1;
    }
    proof {
        lemma_trailing_count_exact(name@, |c: char| is_not_dot(c), (n - t) as int);
    }
    let has_ext = t < n && n - t - 1 > 0 && !is_double_dot(name);
    if has_ext {
        let p = n - t - 1;
        let ext = suffix_from(name, p + 1);
        match utf8_len_within(&ext, MAX_KEPT_EXTENSION_LEN) {
            Some(ext_len) => {
                let room = if max_len >= ext_len + 1 {
                    max_len - ext_len - 1
                } else {
                    0
                };
                let stem = prefix_to(name, p);
                let mut res = floor_char_boundary(&stem, room);
                res.push('.');
                push_all(&mut res, &ext);
                return res;
            },
            None => {},
        }
    }
    floor_char_boundary(name, max_len)
}

/// `v` without its trailing dots and spaces.
fn trim_dots_and_spaces(v: &Vec<char>) -> (res: Vec<char>)
    ensures
        res@ == trim_end_by(v@, |c: char| is_space_or_dot(c)),
{
    let mut end: usize = v.len();
    while end > 0 && (v[end - 1] == ' ' || v[end - 1] == '.')
        invariant
            end <= v.len(),
            forall|j: int| end <= j < v.len() ==> is_space_or_dot(#[trigger] v@[j]),
        decreases end,
    {
        end = end - 1;
    }
    proof {
        lemma_trailing_count_exact(v@, |c: char| is_space_or_dot(c), end as int);
    }
    prefix_to(v, end)
}

/// `name` with `_` in front when its stem (everything before the first dot)
/// is a Windows device name.
fn escape_device_name(name: Vec<char>) -> (res: Vec<char>)
    ensures
        res@ == escaped_name(name@),
{
    let mut k: usize = 0;
    while k < name.len() && name[k] != '.'
        invariant
            k <= name.len(),
            forall|j: int| 0 <= j < k ==> is_not_dot(#[trigger] name@[j]),
        decreases name.len() - k,
    {
        k = k + 1;
    }
    proof {
        lemma_leading_count_exact(name@, |c: char| is_not_dot(c), k as int);
    }
    let stem = prefix_to(&name, k);
    if is_reserved_stem(&stem) {
        let mut e: Vec<char> = Vec::new();
        e.push('_');
        push_all(&mut e, &name);
        proof {
            assert(e@ =~= seq!['_'] + name@);
        }
        e
    } else {
        name
    }
}

/// Makes one path segment safe to write to disk on any supported platform:
/// separators, `:`, Windows-illegal and control characters become `_`;
/// trailing dots and spaces are removed, so that what is validated is what
/// lands on disk; a Windows device name gets a `_` prefix; a name over 200
/// bytes is cut, keeping its extension, and trimmed and escaped again after
/// the cut. A segment that leaves nothing usable is refused.
pub fn sanitize_component(segment: &str) -> (res: Result<String>)
    ensures
        match sanitized(segment@) {
            Some(c) => res matches Ok(s) && s@ == c,
            None => res matches Err(Error::UnsafePath(m)) && m@ == segment_refusal(segment@),
        },
        res matches Ok(s) ==> s@.len() > 0 && !is_space_or_dot(s@.last()),
        res matches Ok(s) ==> plain_component(s@),
        (segment@.len() > 0 && (forall|i: int| 0 <= i < segment@.len() ==> safe_char(
            #[trigger] segment@[i],
        )) && !is_space_or_dot(segment@.last()) && !is_reserved_device_name(
            stem_before_first_dot(segment@),
        ) && utf8_len(segment@) <= 200) ==> (res matches Ok(s) && s@ == segment@),
{
    proof {
        if segment@.len() > 0 && (forall|i: int| 0 <= i < segment@.len() ==> safe_char(
            #[trigger] segment@[i],
        )) && !is_space_or_dot(segment@.last()) && !is_reserved_device_name(
            stem_before_first_dot(segment@),
        ) && utf8_len(segment@) <= 200 {
            lemma_clean_segment_kept(segment@);
        }
    }
    let seg = chars_of(segment);
    if seg.len() == 0 {
        return Err(Error::UnsafePath(string_of("empty path component")));
    }
    let mut mapped: Vec<char> = Vec::new();
    let mut i: usize = 0;
    while i < seg.len()
        invariant
            i <= seg.len(),
            mapped@ == seg@.take(i as int).map_values(|c: char| replaced_char(c)),
        decreases seg.len() - i,
    {
        mapped.push(replace_char(seg[i]));
        i = i + 1;
        proof {
            assert(seg@.take(i as int).map_values(|c: char| replaced_char(c)) =~= seg@.take(
                i - 1,
            ).map_values(|c: char| replaced_char(c)).push(replaced_char(seg@[i - 1])));
        }
    }
    proof {
        assert(seg@.take(seg@.len() as int) =~= seg@);
    }
    let cleaned_chars = trim_dots_and_spaces(&mapped);
    assert(cleaned_chars@ == cleaned(seg@));
    if cleaned_chars.len() == 0 || is_single(&cleaned_chars, '.') || is_double_dot(&cleaned_chars) {
        return Err(unusable(segment));
    }
    let escaped = escape_device_name(cleaned_chars);
    let result = match utf8_len_within(&escaped, MAX_COMPONENT_LEN) {
        Some(_) => escaped,
        None => {
            let cut = truncate_preserving_extension(&escaped, MAX_COMPONENT_LEN);
            // A cut can end in dots or spaces again; Windows would drop them.
            let trimmed = trim_dots_and_spaces(&cut);
            if trimmed.len() == 0 {
                return Err(unusable(segment));
            }
            escape_device_name(trimmed)
        },
    };
    proof {
        lemma_sanitized_is_plain(seg@);
    }
    Ok(string_from_chars(&result))
}

/// Validates and normalizes a sender-supplied relative path.
///
/// Returns the path's components: relative, traversal-free, and each one
/// sanitized. Anything structurally dangerous is refused rather than
/// repaired.
pub fn safe_relative_path(raw: &str) -> (res: Result<Vec<String>>)
    ensures
        match safe_path(raw@) {
            Some(c) => res matches Ok(v) && v.deep_view() == c,
            None => res matches Err(Error::UnsafePath(_)),
        },
        res matches Ok(v) ==> v.len() > 0 && forall|i: int|
            0 <= i < v.len() ==> plain_component(#[trigger] v.deep_view()[i]),
{
    let chars = chars_of(raw);
    let trimmed = trim_chars(&chars);
    if trimmed.len() == 0 {
        return refuse(raw, "empty path");
    }
    if utf8_len_within(&chars, MAX_RELATIVE_LEN).is_none() {
        return refuse(raw, "path is too long");
    }
    let mut z: usize = 0;
    while z < chars.len()
        invariant
            z <= chars.len(),
            chars@ == raw@,
            forall|j: int| 0 <= j < z ==> chars@[j] != '\0',
        decreases chars.len() - z,
    {
        if chars[z] == '\0' {
            proof {
                assert(chars@[z as int] == '\0');
                assert(raw@[z as int] == '\0');
                assert(raw@.contains('\0'));
                assert(structurally_unsafe(raw@));
            }
            return refuse(raw, "contains a null byte");
        }
        z = z + 1;
    }
    proof {
        assert(!chars@.contains('\0'));
    }
    let ghost n = normalized(raw@);
    let n0 = if chars.len() > 0 && chars[0] == '\\' { '/' } else if chars.len() > 0 { chars[0] } else { ' ' };
    if chars.len() > 0 && n0 == '/' {
        return refuse(raw, "absolute path");
    }
    if chars.len() >= 2 && (('a' <= n0 && n0 <= 'z') || ('A' <= n0 && n0 <= 'Z')) && chars[1]
        == ':' {
        return refuse(raw, "contains a drive letter");
    }
    proof {
        assert(!structurally_unsafe(raw@));
    }
    let mut comps: Vec<String> = Vec::new();
    let mut cur: Vec<char> = Vec::new();
    let mut failure: Option<Error> = None;
    let mut i: usize = 0;
    proof {
        assert(n.take(0) =~= Seq::<char>::empty());
    }
    while i < chars.len()
        invariant
            i <= chars.len(),
            chars@ == raw@,
            n == normalized(raw@),
            split(n.take(i as int), '/').len() >= 1,
            split(n.take(i as int), '/').last() == cur@,
            failure is Some <==> components(split(n.take(i as int), '/').drop_last()) is None,
            failure matches Some(e) ==> e is UnsafePath,
            failure is None ==> components(split(n.take(i as int), '/').drop_last()) == Some(
                comps.deep_view(),
            ),
        decreases chars.len() - i,
    {
        let c = if chars[i] == '\\' { '/' } else { chars[i] };
        let ghost prev = split(n.take(i as int), '/');
        proof {
            assert(n.take(i + 1).drop_last() =~= n.take(i as int));
            assert(n.take(i + 1).last() == c);
        }
        if c == '/' {
            proof {
                assert(split(n.take(i + 1), '/').drop_last() =~= prev);
                assert(prev =~= prev.drop_last().push(prev.last()));
            }
            if failure.is_none() {
                if cur.len() == 0 || is_single(&cur, '.') {
                } else if is_double_dot(&cur) {
                    failure = Some(refusal(raw, "contains a parent-directory traversal"));
                } else {
                    let seg = string_from_chars(&cur);
                    match sanitize_component(seg.as_str()) {
                        Ok(s) => {
                            comps.push(s);
                        },
                        Err(e) => {
                            failure = Some(e);
                        },
                    }
                }
            }
            cur = Vec::new();
        } else {
            proof {
                assert(split(n.take(i + 1), '/').drop_last() =~= prev.drop_last());
            }
            cur.push(c);
        }
        i = i + 1;
    }
    proof {
        assert(n.take(chars.len() as int) =~= n);
        let s = split(n, '/');
        assert(s =~= s.drop_last().push(s.last()));
    }
    if failure.is_none() {
        if cur.len() == 0 || is_single(&cur, '.') {
        } else if is_double_dot(&cur) {
            failure = Some(refusal(raw, "contains a parent-directory traversal"));
        } else {
            let seg = string_from_chars(&cur);
            match sanitize_component(seg.as_str()) {
                Ok(s) => {
                    comps.push(s);
                },
                Err(e) => {
                    failure = Some(e);
                },
            }
        }
    }
    if let Some(e) = failure {
        return Err(e);
    }
    if comps.len() == 0 {
        return refuse(raw, "resolves to an empty path");
    }
    proof {
        if safe_path(raw@) is Some {
            lemma_accepted_path_stays_below(raw@);
        }
    }
    Ok(comps)
}

/// The in-progress name for a file being received: the final name with
/// `.fluqsr-part` appended, so a partial transfer is never mistaken for a
/// complete file and resume can find it.
pub fn partial_path(final_path: &str) -> (res: String)
    ensures
        res@ == final_path@ + ".fluqsr-part"@,
{
    let mut v = chars_of(final_path);
    push_str(&mut v, ".fluqsr-part");
    string_from_chars(&v)
}

/// Whether `prefix` is a leading run of `path`'s components
/// (`Path::starts_with`).
pub open spec fn starts_with(path: Seq<Seq<char>>, prefix: Seq<Seq<char>>) -> bool {
    prefix.len() <= path.len() && path.take(prefix.len() as int) == prefix
}

fn components_start_with(path: &Vec<String>, prefix: &Vec<String>) -> (res: bool)
    ensures
        res == starts_with(path.deep_view(), prefix.deep_view()),
{
    if prefix.len() > path.len() {
        return false;
    }
    let mut i: usize = 0;
    while i < prefix.len()
        invariant
            prefix.len() <= path.len(),
            i <= prefix.len(),
            forall|j: int| 0 <= j < i ==> path@[j]@ == prefix@[j]@,
        decreases prefix.len() - i,
    {
        if !str_eq(path[i].as_str(), prefix[i].as_str()) {
            assert(path.deep_view().take(prefix.len() as int)[i as int] == path@[i as int]@);
            assert(prefix.deep_view()[i as int] == prefix@[i as int]@);
            return false;
        }
        i = i + 1;
    }
    assert(path.deep_view().take(prefix.len() as int) =~= prefix.deep_view());
    true
}

/// How a path given as components reads (`Path::display`): the components
/// joined as `Path::join` joins them, so a component that already ends in
/// `/`, like the root, takes no further separator.
pub open spec fn path_text(components: Seq<Seq<char>>) -> Seq<char>
    decreases components.len(),
{
    if components.len() == 0 {
        Seq::empty()
    } else {
        joined(path_text(components.drop_last()), components.last())
    }
}

/// A path as an error message shows it (`{:?}`): its text in double quotes.
pub open spec fn quoted_path(components: Seq<Seq<char>>) -> Seq<char> {
    seq!['"'] + path_text(components) + seq!['"']
}

fn joined_for_message(components: &Vec<String>) -> (res: Vec<char>)
    ensures
        res@ == quoted_path(components.deep_view()),
{
    let mut text: Vec<char> = Vec::new();
    let mut i: usize = 0;
    while i < components.len()
        invariant
            i <= components@.len(),
            text@ == path_text(components.deep_view().take(i as int)),
        decreases components.len() - i,
    {
        let ghost before = text@;
        let part = chars_of(components[i].as_str());
        if text.len() > 0 && text[text.len() - 1] != '/' {
            text.push('/');
        }
        push_all(&mut text, &part);
        proof {
            let taken = components.deep_view().take(i + 1);
            assert(taken.drop_last() =~= components.deep_view().take(i as int));
            assert(taken.last() == components@[i as int]@);
            assert(text@ =~= joined(before, components@[i as int]@));
        }
        i = i + 1;
    }
    proof {
        assert(components.deep_view().take(components@.len() as int) =~= components.deep_view());
    }
    let mut v: Vec<char> = Vec::new();
    v.push('"');
    push_all(&mut v, &text);
    v.push('"');
    assert(v@ =~= quoted_path(components.deep_view()));
    v
}

/// Joins validated components onto the receive root and confirms that the
/// result really is inside it.
///
/// The string checks of `safe_relative_path` cannot see the filesystem; this
/// can, through what the caller found there: `canonical_root` is the root
/// with its links resolved (or the root itself when that failed), and
/// `resolved_parent` the deepest existing parent of the joined path with its
/// links resolved, `None` when there is none. A parent that resolves outside
/// the root (a link pointing out of it, say) is refused.
pub fn resolve_within(
    root: &Vec<String>,
    relative: &Vec<String>,
    canonical_root: &Vec<String>,
    resolved_parent: Option<&Vec<String>>,
) -> (res: Result<Vec<String>>)
    ensures
        match resolved_parent {
            None => res matches Err(Error::UnsafePath(m)) && m@ == quoted_path(
                root.deep_view() + relative.deep_view(),
            ) + " has no parent"@,
            Some(parent) => if starts_with(parent.deep_view(), canonical_root.deep_view()) {
                res matches Ok(c) && c.deep_view() == root.deep_view() + relative.deep_view()
            } else {
                res matches Err(Error::UnsafePath(m)) && m@ == quoted_path(relative.deep_view())
                    + " would write outside the receive folder"@
            },
        },
        res is Ok ==> (resolved_parent matches Some(parent) && canonical_root@.len()
            <= parent@.len() && forall|i: int|
            0 <= i < canonical_root@.len() ==> (#[trigger] parent@[i])@ == canonical_root@[i]@),
{
    let mut candidate: Vec<String> = Vec::new();
    let mut i: usize = 0;
    while i < root.len()
        invariant
            i <= root.len(),
            candidate@.len() == i,
            forall|k: int| 0 <= k < i ==> candidate@[k]@ == root@[k]@,
        decreases root.len() - i,
    {
        candidate.push(root[i].clone());
        i = i + 1;
    }
    let mut j: usize = 0;
    while j < relative.len()
        invariant
            j <= relative.len(),
            candidate@.len() == root@.len() + j,
            forall|k: int| 0 <= k < root@.len() ==> candidate@[k]@ == root@[k]@,
            forall|k: int| 0 <= k < j ==> candidate@[root@.len() + k]@ == relative@[k]@,
        decreases relative.len() - j,
    {
        candidate.push(relative[j].clone());
        j = j + 1;
    }
    assert forall|k: int| 0 <= k < candidate@.len() implies candidate.deep_view()[k] == (
    root.deep_view() + relative.deep_view())[k] by {
        if k >= root@.len() {
            assert(candidate@[root@.len() + (k - root@.len())]@ == relative@[k - root@.len()]@);
        }
    }
    assert(candidate.deep_view() =~= root.deep_view() + relative.deep_view());
    match resolved_parent {
        None => {
            let mut msg = joined_for_message(&candidate);
            push_str(&mut msg, " has no parent");
            Err(Error::UnsafePath(string_from_chars(&msg)))
        },
        Some(parent) => {
            if components_start_with(parent, canonical_root) {
                proof {
                    assert forall|i: int| 0 <= i < canonical_root@.len() implies (
                    #[trigger] parent@[i])@ == canonical_root@[i]@ by {
                        assert(parent.deep_view().take(canonical_root@.len() as int)[i]
                            == canonical_root.deep_view()[i]);
                    }
                }
                Ok(candidate)
            } else {
                let mut msg = joined_for_message(relative);
                push_str(&mut msg, " would write outside the receive folder");
                Err(Error::UnsafePath(string_from_chars(&msg)))
            }
        },
    }
}

/// A path that passed both checks stays inside the receive root: it is the
/// root followed by at least one plain component.
pub proof fn lemma_resolved_path_is_inside(
    root: Seq<Seq<char>>,
    raw: Seq<char>,
    resolved: Seq<Seq<char>>,
)
    requires
        safe_path(raw) is Some,
        resolved == root + (safe_path(raw)->0),
    ensures
        starts_with(resolved, root),
        resolved.len() > root.len(),
        forall|i: int|
            root.len() <= i < resolved.len() ==> plain_component(#[trigger] resolved[i]),
{
    lemma_accepted_path_stays_below(raw);
    assert(resolved.take(root.len() as int) =~= root);
    assert forall|i: int| root.len() <= i < resolved.len() implies plain_component(
        #[trigger] resolved[i],
    ) by {
        assert(resolved[i] == (safe_path(raw)->0)[i - root.len()]);
    }
}

/// The stem of a file name in the sense of `Path::file_stem`.
pub open spec fn file_stem_of(name: Seq<char>) -> Seq<char> {
    if has_extension(name) {
        stem_of(name)
    } else {
        name
    }
}

/// The `counter`-th alternative to a taken file name: `report.pdf` becomes
/// `report (1).pdf`, then `report (2).pdf`; `notes` becomes `notes (1)`.
pub open spec fn numbered(name: Seq<char>, counter: nat) -> Seq<char> {
    if has_extension(name) {
        stem_of(name) + seq![' ', '('] + decimal(counter) + seq![')', '.'] + extension_of(name)
    } else {
        name + seq![' ', '('] + decimal(counter) + seq![')']
    }
}

/// The last dot of a name, when it has an extension.
fn extension_dot(name: &Vec<char>) -> (res: Option<usize>)
    ensures
        match res {
            Some(p) => has_extension(name@) && p == last_dot(name@),
            None => !has_extension(name@),
        },
{
    let n = name.len();
    let mut t: usize = 0;
    while t < n && name[n - 1 - t] != '.'
        invariant
            t <= n,
            n == name.len(),
            forall|i: int| n - t <= i < n ==> is_not_dot(#[trigger] name@[i]),
        decreases n - t,
    {
        t = t + 1;
    }
    proof {
        lemma_trailing_count_exact(name@, |c: char| is_not_dot(c), (n - t) as int);
    }
    if t < n && n - t - 1 > 0 && !is_double_dot(name) {
        Some(n - t - 1)
    } else {
        None
    }
}

/// The `counter`-th alternative name for a file whose name is taken. A
/// sender must never be able to replace a file on the receiver's disk by
/// naming it, so an incoming file that collides is written under the first
/// of these that is free.
pub fn numbered_name(name: &str, counter: u32) -> (res: String)
    ensures
        res@ == numbered(name@, counter as nat),
{
    proof {
        reveal_strlit(" (");
        reveal_strlit(").");
        reveal_strlit(")");
    }
    let chars = chars_of(name);
    let mut v: Vec<char> = Vec::new();
    match extension_dot(&chars) {
        Some(p) => {
            let stem = prefix_to(&chars, p);
            let ext = suffix_from(&chars, p + 1);
            push_all(&mut v, &stem);
            push_str(&mut v, " (");
            push_decimal(&mut v, counter as u64);
            push_str(&mut v, ").");
            push_all(&mut v, &ext);
            assert(stem@ == stem_of(name@));
            assert(ext@ == extension_of(name@));
        },
        None => {
            push_all(&mut v, &chars);
            push_str(&mut v, " (");
            push_decimal(&mut v, counter as u64);
            push_str(&mut v, ")");
        },
    }
    string_from_chars(&v)
}

/// How many numbered alternatives are tried before a random name is used.
pub const MAX_NUMBERED_TRIES: u32 = 9999;

/// The search for a free name for an incoming file whose wanted name is
/// taken: `name (1)`, `name (2)`, and so on up to `MAX_NUMBERED_TRIES`, each
/// proposed once and in order. Whether a name is free is the caller's to
/// find out; when the search runs dry, `fallback_name` is left.
pub struct NameSearch {
    name: String,
    tried: u32,
}

impl NameSearch {
    /// The name being replaced.
    pub closed spec fn name(&self) -> Seq<char> {
        self.name@
    }

    /// How many alternatives have been proposed so far.
    pub closed spec fn tried(&self) -> nat {
        self.tried as nat
    }

    pub fn new(name: &str) -> (res: NameSearch)
        ensures
            res.name() == name@,
            res.tried() == 0,
    {
        NameSearch { name: string_of(name), tried: 0 }
    }

    /// The next alternative, the name itself and every earlier alternative
    /// being taken; `None` once all of them have been proposed.
    pub fn next(&mut self) -> (res: Option<String>)
        ensures
            final(self).name() == old(self).name(),
            old(self).tried() < MAX_NUMBERED_TRIES ==> (res matches Some(candidate)
                && candidate@ == numbered(old(self).name(), old(self).tried() + 1)
                && final(self).tried() == old(self).tried() + 1),
            old(self).tried() >= MAX_NUMBERED_TRIES ==> res is None && final(self).tried()
                == old(self).tried(),
    {
        if self.tried >= MAX_NUMBERED_TRIES {
            return None;
        }
        self.tried = self.tried + 1;
        Some(numbered_name(self.name.as_str(), self.tried))
    }
}

/// The collision-proof name used when every numbered alternative is taken:
/// the stem, a dash and a fresh random UUID.
pub fn fallback_name(name: &str) -> (res: String)
    ensures
        res@.len() == file_stem_of(name@).len() + 37,
        res@.take(file_stem_of(name@).len() as int + 1) == file_stem_of(name@).push('-'),
{
    let chars = chars_of(name);
    let mut v: Vec<char> = match extension_dot(&chars) {
        Some(p) => prefix_to(&chars, p),
        None => chars,
    };
    let ghost stem = v@;
    v.push('-');
    let id = new_uuid();
    push_str(&mut v, id.as_str());
    assert(v@.take(stem.len() as int + 1) =~= stem.push('-'));
    string_from_chars(&v)
}

/// Different counters give different alternatives, so a search through
/// them never proposes the same name twice.
pub proof fn lemma_numbered_injective(name: Seq<char>, i: nat, j: nat)
    requires
        i != j,
    ensures
        numbered(name, i) != numbered(name, j),
{
    let di = decimal(i);
    let dj = decimal(j);
    if numbered(name, i) == numbered(name, j) {
        let a = numbered(name, i);
        let b = numbered(name, j);
        let head = if has_extension(name) {
            stem_of(name) + seq![' ', '(']
        } else {
            name + seq![' ', '(']
        };
        let tail: Seq<char> = if has_extension(name) {
            seq![')', '.'] + extension_of(name)
        } else {
            seq![')']
        };
        assert(a =~= head + di + tail);
        assert(b =~= head + dj + tail);
        assert(di.len() == dj.len());
        assert(a.subrange(head.len() as int, (head.len() + di.len()) as int) =~= di);
        assert(b.subrange(head.len() as int, (head.len() + dj.len()) as int) =~= dj);
        lemma_decimal_injective(i, j);
    }
}

/// A numbered alternative never is the name it stands in for.
pub proof fn lemma_numbered_differs(name: Seq<char>, counter: nat)
    ensures
        numbered(name, counter) != name,
{
    if has_extension(name) {
        lemma_trailing_count_bound(name, |c: char| is_not_dot(c));
        assert(name.len() == stem_of(name).len() + 1 + extension_of(name).len());
        assert(numbered(name, counter).len() > name.len());
    } else {
        assert(numbered(name, counter).len() > name.len());
    }
}

} // verus!
