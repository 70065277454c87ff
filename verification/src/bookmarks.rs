//! Security-scoped bookmark policy. The App Sandbox grants access to
//! what the user picks in an open panel; that grant dies with the
//! process unless it is captured as a bookmark. This module owns the
//! pure half: encoding, pruning, and what a resolution means. The
//! Foundation calls belong to the platform shell.
use vstd::prelude::*;
use vstd::utf8::*;
use vstd::string::*;
use std::collections::BTreeMap;
use std::path::PathBuf;
use crate::text::{push_char, sbytes};

verus! {

#[verifier::external_type_specification]
#[verifier::external_body]
pub struct ExPathBuf(PathBuf);

/// What resolving a stored bookmark produced.
#[derive(Debug, PartialEq)]
pub enum Resolution {
    /// Usable; access has been started.
    Fresh(PathBuf),
    /// Resolved, but macOS flagged it stale: the folder moved. Usable
    /// once, and the caller should re-create the bookmark.
    Stale(PathBuf),
    /// Gone: deleted, on an unmounted volume, or never bookmarked.
    Missing,
}

/// True when this build must capture bookmarks to keep folder access
/// across launches. Only the sandboxed macOS App Store build does, and
/// this crate has no such build.
pub fn needs_scope() -> (r: bool)
    ensures
        !r,
{
    false
}

/// The lowercase hex digit for `n < 16`, as an ASCII byte.
pub open spec fn hex_digit(n: u8) -> u8 {
    if n < 10 {
        (48 + n) as u8
    } else {
        (87 + n) as u8
    }
}

/// Two lowercase hex digits per byte.
pub open spec fn hex_bytes(b: Seq<u8>) -> Seq<u8>
    decreases b.len(),
{
    if b.len() == 0 {
        seq![]
    } else {
        hex_bytes(b.drop_last()) + seq![hex_digit(b.last() / 16), hex_digit(b.last() % 16)]
    }
}

/// The value of a hex digit (either case), if it is one.
pub open spec fn hex_value(c: u8) -> Option<int> {
    if 48 <= c <= 57 {
        Some(c - 48)
    } else if 97 <= c <= 102 {
        Some(c - 87)
    } else if 65 <= c <= 70 {
        Some(c - 55)
    } else {
        None
    }
}

/// The bytes that the hex text `s` spells, two digits each; `None` on an
/// odd length or a non-hex digit.
pub open spec fn spec_hex_decode(s: Seq<u8>) -> Option<Seq<u8>> {
    if s.len() % 2 != 0 {
        None
    } else if forall|i: int| 0 <= i < s.len() ==> (#[trigger] hex_value(s[i])) is Some {
        Some(
            Seq::new(
                (s.len() / 2) as nat,
                |i: int| (hex_value(s[2 * i])->0 * 16 + hex_value(s[2 * i + 1])->0) as u8,
            ),
        )
    } else {
        None
    }
}

fn hex_char(n: u8) -> (c: char)
    requires
        n < 16,
    ensures
        c as u32 == hex_digit(n),
        (c as u32) < 128,
{
    if n < 10 {
        (48u8 + n) as char
    } else {
        (87u8 + n) as char
    }
}

proof fn lemma_push_ascii(s: Seq<char>, c: char)
    requires
        (c as u32) < 128,
    ensures
        encode_utf8(s.push(c)) == encode_utf8(s) + seq![c as u32 as u8],
{
    crate::text::lemma_encode_push(s, c);
    let one = seq![c];
    assert(is_ascii_chars(one));
    is_ascii_chars_encode_utf8(one);
    crate::text::lemma_encode_push(Seq::<char>::empty(), c);
    assert(Seq::<char>::empty().push(c) =~= one);
    assert(encode_utf8(Seq::<char>::empty()) =~= Seq::<u8>::empty());
    assert(encode_scalar(c as u32) =~= seq![c as u32 as u8]);
}

/// Lowercase hex. Bookmark blobs are ~1KB of opaque bytes and
/// settings.toml is text, so they are stored hex-encoded.
pub fn hex_encode(bytes: &[u8]) -> (r: String)
    ensures
        sbytes(r) == hex_bytes(bytes@),
{
    let mut out = String::new();
    let mut i: usize = 0;
    assert(bytes@.take(0) =~= Seq::<u8>::empty());
    assert(sbytes(out) =~= Seq::<u8>::empty());
    while i < bytes.len()
        invariant
            i <= bytes@.len(),
            sbytes(out) == hex_bytes(bytes@.take(i as int)),
        decreases bytes@.len() - i,
    {
        let b = bytes[i];
        let hi = hex_char(b / 16);
        let lo = hex_char(b % 16);
        let ghost before = out@;
        push_char(&mut out, hi);
        push_char(&mut out, lo);
        proof {
            lemma_push_ascii(before, hi);
            lemma_push_ascii(before.push(hi), lo);
            assert(bytes@.take(i + 1).drop_last() =~= bytes@.take(i as int));
            assert(bytes@.take(i + 1).last() == b);
            assert(sbytes(out) =~= hex_bytes(bytes@.take(i + 1)));
        }
        i += 1;
    }
    assert(bytes@.take(bytes@.len() as int) =~= bytes@);
    out
}

fn hex_val(c: u8) -> (r: Option<u8>)
    ensures
        r is None <==> hex_value(c) is None,
        r matches Some(v) ==> v == hex_value(c)->0 && v < 16,
{
    if 48u8 <= c && c <= 57u8 {
        Some(c - 48u8)
    } else if 97u8 <= c && c <= 102u8 {
        Some(c - 87u8)
    } else if 65u8 <= c && c <= 70u8 {
        Some(c - 55u8)
    } else {
        None
    }
}

/// Inverse of `hex_encode`. None on odd length or a non-hex digit.
pub fn hex_decode(s: &str) -> (r: Option<Vec<u8>>)
    ensures
        r is None <==> spec_hex_decode(s.spec_bytes()) is None,
        r matches Some(v) ==> spec_hex_decode(s.spec_bytes()) == Some(v@),
{
    let b = s.as_bytes();
    let ghost sb = b@;
    let n = b.len();
    if n % 2 != 0 {
        return None;
    }
    let mut out: Vec<u8> = Vec::new();
    let mut i: usize = 0;
    while i < n / 2
        invariant
            b@ == sb,
            sb == s.spec_bytes(),
            n == sb.len(),
            n % 2 == 0,
            i <= n / 2,
            out@.len() == i,
            forall|k: int| 0 <= k < 2 * i ==> (#[trigger] hex_value(sb[k])) is Some,
            forall|k: int|
                0 <= k < i ==> out@[k] == (hex_value(sb[2 * k])->0 * 16 + hex_value(sb[2 * k
                    + 1])->0) as u8,
        decreases n / 2 - i,
    {
        let hi = match hex_val(b[2 * i]) {
            Some(v) => v,
            None => {
                assert(hex_value(sb[2 * i as int]) is None);
                return None;
            },
        };
        let lo = match hex_val(b[2 * i + 1]) {
            Some(v) => v,
            None => {
                assert(hex_value(sb[2 * i + 1]) is None);
                return None;
            },
        };
        out.push(hi * 16 + lo);
        assert forall|k: int| 0 <= k < 2 * (i + 1) implies (#[trigger] hex_value(sb[k])) is Some by {
            if k == 2 * i || k == 2 * i + 1 {
            }
        }
        i += 1;
    }
    assert(out@ =~= spec_hex_decode(sb)->0);
    Some(out)
}

proof fn lemma_hex_bytes(b: Seq<u8>)
    ensures
        hex_bytes(b).len() == 2 * b.len(),
        forall|i: int|
            0 <= i < b.len() ==> hex_bytes(b)[2 * i] == hex_digit(#[trigger] b[i] / 16)
                && hex_bytes(b)[2 * i + 1] == hex_digit(b[i] % 16),
    decreases b.len(),
{
    if b.len() > 0 {
        let p = b.drop_last();
        lemma_hex_bytes(p);
        assert forall|i: int| 0 <= i < b.len() implies hex_bytes(b)[2 * i] == hex_digit(
            #[trigger] b[i] / 16,
        ) && hex_bytes(b)[2 * i + 1] == hex_digit(b[i] % 16) by {
            if i < p.len() {
                assert(b[i] == p[i]);
            }
        }
    }
}

/// Decoding what `hex_encode` wrote gives back the bytes.
pub proof fn lemma_hex_round_trip(b: Seq<u8>)
    ensures
        spec_hex_decode(hex_bytes(b)) == Some(b),
{
    lemma_hex_bytes(b);
    let h = hex_bytes(b);
    assert forall|i: int| 0 <= i < h.len() implies (#[trigger] hex_value(h[i])) is Some by {
        let k = i / 2;
        assert(i == 2 * k || i == 2 * k + 1);
        assert(b[k] / 16 < 16);
    }
    assert forall|k: int| 0 <= k < b.len() implies (hex_value(h[2 * k])->0 * 16 + hex_value(
        h[2 * k + 1],
    )->0) as u8 == #[trigger] b[k] by {
        assert(hex_value(h[2 * k])->0 == b[k] / 16);
        assert(hex_value(h[2 * k + 1])->0 == b[k] % 16);
    }
    assert(spec_hex_decode(h)->0 =~= b);
}

/// Whether some recent path equals `path`.
pub open spec fn is_recent(recents: Seq<String>, path: String) -> bool {
    exists|i: int| 0 <= i < recents.len() && (#[trigger] recents[i])@ == path@
}

fn recent_contains(recents: &[String], path: &String) -> (r: bool)
    ensures
        r == is_recent(recents@, *path),
{
    let mut i: usize = 0;
    while i < recents.len()
        invariant
            i <= recents@.len(),
            forall|k: int| 0 <= k < i ==> (#[trigger] recents@[k])@ != path@,
        decreases recents@.len() - i,
    {
        if recents[i] == *path {
            return true;
        }
        i += 1;
    }
    false
}

/// `BTreeMap::retain`, keeping the entries whose key a recent path
/// equals. std documents `retain` as removing exactly the pairs for
/// which the predicate returns false, so the map afterwards is the map
/// before restricted to the recent keys.
#[verifier::external_body]
fn retain_recent(map: &mut BTreeMap<String, String>, recents: &[String])
    ensures
        final(map)@ == old(map)@.restrict(old(map)@.dom().filter(|k: String| is_recent(recents@, k))),
{
    map.retain(|path, _| recent_contains(recents, path));
}

/// Drop bookmarks whose path is no longer in the recents list, so the
/// map cannot outgrow the eight entries it mirrors.
pub fn prune(map: &mut BTreeMap<String, String>, recents: &[String])
    ensures
        final(map)@ == old(map)@.restrict(old(map)@.dom().filter(|k: String| is_recent(recents@, k))),
{
    retain_recent(map, recents);
}

} // verus!
