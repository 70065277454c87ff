//! Formatting toggles behind the floating toolbar and ⌘B/⌘I. Each
//! returns one contiguous replacement plus the selection to keep after
//! it, so the editor applies it as a single undo group.
use vstd::prelude::*;
use vstd::utf8::*;
use vstd::string::*;
use core::ops::Range;
use crate::text::{
    boundary, bytes_at, char_is_ws, ws_lead, ws_trail, lemma_ws_lead, lemma_ws_trail, char_len, chars_of, is_ws, lemma_boundary_after_valid,
    lemma_boundary_before_valid, lemma_boundary_lift, lemma_encode_cons, lemma_encode_push,
    lemma_encode_split, occurs_at, push_str, sbytes, substr, next_byte, lemma_next_byte, find_byte,
    has_byte, ascii_str, lemma_ascii_boundary, line_start_at, lemma_line_start_at, find_line_start,
    next_nl, lemma_next_nl, find_newline,
};
use crate::editor::display::run_fwd;

verus! {

broadcast use vstd::utf8::encode_utf8_valid_utf8, vstd::utf8::is_char_boundary_start_end_of_seq;

/// One contiguous replacement, plus the selection to keep after it.
#[derive(Debug, PartialEq, Eq)]
pub struct FmtEdit {
    /// Bytes of the document to replace.
    pub range: Range<usize>,
    pub replacement: String,
    /// Selection after the edit, in post-edit document coordinates.
    pub select: Range<usize>,
}

/// An edit as plain values: the replaced bytes `[start, end)`, the
/// replacement, and the selection `[sel_start, sel_end)` afterwards.
pub struct FmtSpec {
    pub start: int,
    pub end: int,
    pub replacement: Seq<u8>,
    pub sel_start: int,
    pub sel_end: int,
}

pub open spec fn fmt_view(e: FmtEdit) -> FmtSpec {
    FmtSpec {
        start: e.range.start as int,
        end: e.range.end as int,
        replacement: sbytes(e.replacement),
        sel_start: e.select.start as int,
        sel_end: e.select.end as int,
    }
}

pub open spec fn mk_fmt(start: int, end: int, replacement: Seq<u8>, sel_start: int, sel_end: int) -> FmtSpec {
    FmtSpec { start, end, replacement, sel_start, sel_end }
}

/// The document after an edit.
pub open spec fn applied(t: Seq<u8>, e: FmtSpec) -> Seq<u8> {
    t.subrange(0, e.start) + e.replacement + t.subrange(e.end, t.len() as int)
}

/// The bytes of leading whitespace (`len - trim_start().len()`).
pub open spec fn lead_bytes(cs: Seq<char>) -> int {
    encode_utf8(cs.take(ws_lead(cs) as int)).len() as int
}

/// The bytes of trailing whitespace (`len - trim_end().len()`).
pub open spec fn trail_bytes(cs: Seq<char>) -> int {
    encode_utf8(cs.skip(cs.len() - ws_trail(cs))).len() as int
}

/// The selection `[s, e)` with its edge whitespace left outside; an
/// all-whitespace or empty selection collapses to `s`.
pub open spec fn spec_trim(t: Seq<u8>, s: int, e: int) -> (int, int) {
    let cs = decode_utf8(t.subrange(s, e));
    if lead_bytes(cs) + trail_bytes(cs) >= e - s {
        (s, s)
    } else {
        (s + lead_bytes(cs), e - trail_bytes(cs))
    }
}

/// A selection the toggles can slice `text` by.
pub open spec fn sel_ok(text: &str, sel: Range<usize>) -> bool {
    &&& sel.start <= sel.end <= text.spec_bytes().len()
    &&& boundary(text, sel.start as int)
    &&& boundary(text, sel.end as int)
}

/// `trim_to_content`: the selection shrunk so that leading and trailing
/// whitespace stays outside the markers.
fn trim_to_content(text: &str, sel: &Range<usize>) -> (r: (usize, usize))
    requires
        sel_ok(text, *sel),
    ensures
        (r.0 as int, r.1 as int) == spec_trim(text.spec_bytes(), sel.start as int, sel.end as int),
        sel.start <= r.0 <= r.1 <= sel.end,
        boundary(text, r.0 as int),
        boundary(text, r.1 as int),
{
    let ghost t = text.spec_bytes();
    let content = substr(text, sel.start, sel.end);
    let ghost cs = content@;
    let ghost cb = content.spec_bytes();
    proof {
        encode_utf8_decode_utf8(cs);
        crate::text::lemma_boundary_in_suffix(t, sel.start as int, sel.end as int);
        crate::text::lemma_boundary_in_prefix(
            t.subrange(sel.start as int, t.len() as int),
            0,
            sel.end - sel.start,
        );
        assert(t.subrange(sel.start as int, t.len() as int).subrange(0, sel.end - sel.start)
            =~= cb);
    }
    let v = chars_of(content);
    let n = v.len();
    let mut i: usize = 0;
    let mut lead: usize = 0;
    assert(cs.take(0) =~= Seq::<char>::empty());
    while i < n && char_is_ws(v[i])
        invariant
            v@ == cs,
            n == cs.len(),
            i <= n,
            cb == encode_utf8(cs),
            cb.len() == sel.end - sel.start,
            lead == encode_utf8(cs.take(i as int)).len(),
            forall|k: int| 0 <= k < i ==> is_ws(#[trigger] cs[k]),
        decreases n - i,
    {
        proof {
            assert(cs.take(i + 1) =~= cs.take(i as int).push(cs[i as int]));
            lemma_encode_push(cs.take(i as int), cs[i as int]);
            lemma_encode_split(cs, i + 1);
        }
        lead = lead + char_len(v[i]);
        i = i + 1;
    }
    proof {
        lemma_ws_lead(cs, i as int);
        lemma_encode_split(cs, i as int);
    }
    let mut j: usize = n;
    let mut trail: usize = 0;
    assert(cs.skip(n as int) =~= Seq::<char>::empty());
    while j > 0 && char_is_ws(v[j - 1])
        invariant
            v@ == cs,
            n == cs.len(),
            j <= n,
            cb == encode_utf8(cs),
            cb.len() == sel.end - sel.start,
            trail == encode_utf8(cs.skip(j as int)).len(),
            forall|k: int| j <= k < n ==> is_ws(#[trigger] cs[k]),
        decreases j,
    {
        proof {
            assert(cs.skip(j - 1) =~= seq![cs[j - 1]] + cs.skip(j as int));
            lemma_encode_cons(cs[j - 1], cs.skip(j as int));
            lemma_encode_split(cs, j - 1);
        }
        trail = trail + char_len(v[j - 1]);
        j = j - 1;
    }
    proof {
        lemma_ws_trail(cs, j as int);
        lemma_encode_split(cs, j as int);
        lemma_encode_split(cs, i as int);
        assert(cb.subrange(0, cb.len() as int) =~= cb);
    }
    let len = sel.end - sel.start;
    if lead >= len || trail >= len - lead {
        (sel.start, sel.start)
    } else {
        proof {
            lemma_boundary_lift(t, sel.start as int, sel.end as int, lead as int);
            lemma_boundary_lift(t, sel.start as int, sel.end as int, (len - trail) as int);
        }
        (sel.start + lead, sel.end - trail)
    }
}

/// What `toggle_inline` does to the bytes `t` for the selection
/// `[s0, e0)` and marker `mk`.
pub open spec fn spec_toggle_inline(t: Seq<u8>, s0: int, e0: int, mk: Seq<u8>) -> FmtSpec {
    let (s, e) = spec_trim(t, s0, e0);
    let c = t.subrange(s, e);
    let m = mk.len() as int;
    if c.len() > 2 * m && occurs_at(c, 0, mk) && occurs_at(c, c.len() - m, mk) {
        // The markers sit inside the selection: unwrap.
        mk_fmt(s, e, c.subrange(m, c.len() - m), s, s + c.len() - 2 * m)
    } else if s >= m && occurs_at(t, s - m, mk) && occurs_at(t, e, mk) {
        // The markers sit just outside the selection: unwrap.
        mk_fmt(s - m, e + m, c, s - m, s - m + c.len())
    } else {
        mk_fmt(s, e, mk + c + mk, s + m, s + m + c.len())
    }
}

proof fn lemma_ws_lead_props(cs: Seq<char>)
    ensures
        ws_lead(cs) <= cs.len(),
        forall|k: int| 0 <= k < ws_lead(cs) ==> is_ws(#[trigger] cs[k]),
        ws_lead(cs) < cs.len() ==> !is_ws(cs[ws_lead(cs) as int]),
    decreases cs.len(),
{
    if cs.len() > 0 && is_ws(cs[0]) {
        let d = cs.drop_first();
        lemma_ws_lead_props(d);
        assert forall|k: int| 0 <= k < ws_lead(cs) implies is_ws(#[trigger] cs[k]) by {
            if k > 0 {
                assert(cs[k] == d[k - 1]);
            }
        }
        if ws_lead(cs) < cs.len() {
            assert(cs[ws_lead(cs) as int] == d[ws_lead(d) as int]);
        }
    }
}

proof fn lemma_ws_trail_props(cs: Seq<char>)
    ensures
        ws_trail(cs) <= cs.len(),
        forall|k: int| cs.len() - ws_trail(cs) <= k < cs.len() ==> is_ws(#[trigger] cs[k]),
        ws_trail(cs) < cs.len() ==> !is_ws(cs[cs.len() - 1 - ws_trail(cs)]),
    decreases cs.len(),
{
    if cs.len() > 0 && is_ws(cs.last()) {
        let d = cs.drop_last();
        lemma_ws_trail_props(d);
        assert forall|k: int| cs.len() - ws_trail(cs) <= k < cs.len() implies is_ws(#[trigger] cs[k]) by {
            if k < cs.len() - 1 {
                assert(cs[k] == d[k]);
            }
        }
        if ws_trail(cs) < cs.len() {
            assert(cs[cs.len() - 1 - ws_trail(cs)] == d[d.len() - 1 - ws_trail(d)]);
        }
    }
}

/// What trimming keeps has no whitespace at either edge: it is empty, or
/// the encoding of characters whose first and last are not whitespace.
proof fn lemma_trim_clean(t: Seq<u8>, s0: int, e0: int)
    requires
        valid_utf8(t),
        0 <= s0 <= e0 <= t.len(),
        is_char_boundary(t, s0),
        is_char_boundary(t, e0),
    ensures
        ({
            let (s, e) = spec_trim(t, s0, e0);
            let c = t.subrange(s, e);
            &&& s0 <= s <= e <= e0
            &&& c.len() == 0 || exists|mid: Seq<char>|
                c == encode_utf8(mid) && mid.len() > 0 && #[trigger] ws_lead(mid) == 0 && ws_trail(mid) == 0
        }),
{
    crate::text::lemma_boundary_in_suffix(t, s0, e0);
    crate::text::lemma_boundary_in_prefix(t.subrange(s0, t.len() as int), 0, e0 - s0);
    let b = t.subrange(s0, e0);
    assert(t.subrange(s0, t.len() as int).subrange(0, e0 - s0) =~= b);
    decode_utf8_encode_utf8(b);
    let cs = decode_utf8(b);
    let n = cs.len() as int;
    let l = ws_lead(cs) as int;
    let r = ws_trail(cs) as int;
    lemma_ws_lead_props(cs);
    lemma_ws_trail_props(cs);
    let lb = lead_bytes(cs);
    let tb = trail_bytes(cs);
    lemma_encode_split(cs, l);
    lemma_encode_split(cs, n - r);
    if lb + tb >= e0 - s0 {
    } else {
        // some character is not whitespace, so the runs do not meet
        assert(l < n) by {
            if l >= n {
                assert(cs.take(l) =~= cs);
            }
        }
        assert(l + r < n) by {
            if l + r >= n {
                assert(is_ws(cs[l]));
            }
        }
        let mid = cs.subrange(l, n - r);
        assert(cs =~= cs.take(l) + mid + cs.skip(n - r));
        crate::text::lemma_encode_concat(cs.take(l), mid);
        crate::text::lemma_encode_concat(cs.take(l) + mid, cs.skip(n - r));
        assert(encode_utf8(cs) == encode_utf8(cs.take(l)) + encode_utf8(mid) + encode_utf8(
            cs.skip(n - r),
        ));
        assert(b.subrange(lb, b.len() - tb) =~= encode_utf8(mid));
        assert(t.subrange(s0 + lb, e0 - tb) =~= b.subrange(lb, b.len() - tb));
        assert(mid[0] == cs[l]);
        assert(mid.last() == cs[n - 1 - r]);
        lemma_ws_lead(mid, 0);
        lemma_ws_trail(mid, mid.len() as int);
    }
}

/// Bytes with no whitespace at their edges trim to themselves.
proof fn lemma_trim_fixed(u: Seq<u8>, a: int, mid: Seq<char>)
    requires
        0 <= a,
        a + encode_utf8(mid).len() <= u.len(),
        u.subrange(a, a + encode_utf8(mid).len()) == encode_utf8(mid),
        mid.len() == 0 || (ws_lead(mid) == 0 && ws_trail(mid) == 0),
    ensures
        spec_trim(u, a, a + encode_utf8(mid).len()) == (a, a + encode_utf8(mid).len()),
{
    encode_utf8_decode_utf8(mid);
    assert(mid.take(0) =~= Seq::<char>::empty());
    assert(mid.skip(mid.len() as int) =~= Seq::<char>::empty());
    if mid.len() == 0 {
        assert(encode_utf8(mid) =~= Seq::<u8>::empty());
    } else {
        assert(mid =~= mid.take(1) + mid.skip(1));
        crate::text::lemma_encode_concat(mid.take(1), mid.skip(1));
        lemma_encode_cons(mid[0], Seq::<char>::empty());
        assert(mid.take(1) =~= seq![mid[0]] + Seq::<char>::empty());
    }
}

/// `toggle_inline` wraps (rather than unwraps) the selection `[s0, e0)`.
pub open spec fn toggle_wraps(t: Seq<u8>, s0: int, e0: int, mk: Seq<u8>) -> bool {
    let (s, e) = spec_trim(t, s0, e0);
    let c = t.subrange(s, e);
    let m = mk.len() as int;
    &&& !(c.len() > 2 * m && occurs_at(c, 0, mk) && occurs_at(c, c.len() - m, mk))
    &&& !(s >= m && occurs_at(t, s - m, mk) && occurs_at(t, e, mk))
}

/// The second toggle, on text that holds `mk`, clean content `c`, and
/// `mk` again at `s`, with `c` selected: it unwraps back to `c`.
proof fn lemma_second_toggle(t1: Seq<u8>, s: int, c: Seq<u8>, mk: Seq<u8>)
    requires
        0 <= s,
        s + 2 * mk.len() + c.len() <= t1.len(),
        t1.subrange(s, s + mk.len()) == mk,
        t1.subrange(s + mk.len(), s + mk.len() + c.len()) == c,
        t1.subrange(s + mk.len() + c.len(), s + 2 * mk.len() + c.len()) == mk,
        c.len() == 0 || exists|mid: Seq<char>|
            c == encode_utf8(mid) && mid.len() > 0 && #[trigger] ws_lead(mid) == 0 && ws_trail(mid) == 0,
        !(c.len() > 2 * mk.len() && occurs_at(c, 0, mk) && occurs_at(c, c.len() - mk.len(), mk)),
    ensures
        spec_toggle_inline(t1, s + mk.len(), s + mk.len() + c.len(), mk) == mk_fmt(
            s,
            s + 2 * mk.len() + c.len(),
            c,
            s,
            s + c.len(),
        ),
{
    let m = mk.len() as int;
    if c.len() == 0 {
        assert(encode_utf8(Seq::<char>::empty()) =~= Seq::<u8>::empty());
        assert(t1.subrange(s + m, s + m) =~= encode_utf8(Seq::<char>::empty()));
        lemma_trim_fixed(t1, s + m, Seq::<char>::empty());
    } else {
        let mid = choose|mid: Seq<char>|
            c == encode_utf8(mid) && mid.len() > 0 && #[trigger] ws_lead(mid) == 0 && ws_trail(mid) == 0;
        lemma_trim_fixed(t1, s + m, mid);
    }
    assert(occurs_at(t1, s, mk));
    assert(occurs_at(t1, s + m + c.len(), mk));
}

/// Wrapping a selection in a marker and toggling the marker again on
/// the selection that comes back restores the text, with the trimmed
/// content selected.
pub proof fn lemma_toggle_inline_twice_restores(t: Seq<u8>, s0: int, e0: int, mk: Seq<u8>)
    requires
        valid_utf8(t),
        0 <= s0 <= e0 <= t.len(),
        is_char_boundary(t, s0),
        is_char_boundary(t, e0),
        toggle_wraps(t, s0, e0, mk),
    ensures
        ({
            let e1 = spec_toggle_inline(t, s0, e0, mk);
            let t1 = applied(t, e1);
            let e2 = spec_toggle_inline(t1, e1.sel_start, e1.sel_end, mk);
            let t2 = applied(t1, e2);
            &&& t2 == t
            &&& t2.subrange(e2.sel_start, e2.sel_end) == t.subrange(e1.start, e1.end)
        }),
{
    let (s, e) = spec_trim(t, s0, e0);
    let c = t.subrange(s, e);
    let m = mk.len() as int;
    lemma_trim_clean(t, s0, e0);
    let e1 = spec_toggle_inline(t, s0, e0, mk);
    assert(e1 == mk_fmt(s, e, mk + c + mk, s + m, s + m + c.len()));
    let t1 = applied(t, e1);
    assert(t1 =~= t.subrange(0, s) + mk + c + mk + t.subrange(e, t.len() as int));
    assert(t1.subrange(s, s + m) =~= mk);
    assert(t1.subrange(s + m, s + m + c.len()) =~= c);
    assert(t1.subrange(s + m + c.len(), s + 2 * m + c.len()) =~= mk);
    lemma_second_toggle(t1, s, c, mk);
    let e2 = spec_toggle_inline(t1, e1.sel_start, e1.sel_end, mk);
    let t2 = applied(t1, e2);
    assert(t2 =~= t);
    assert(t2.subrange(s, s + c.len()) =~= c);
}

/// Wrap or unwrap the selection with an inline marker (`**`, `*`,
/// `` ` ``, `~~`). Whitespace at the selection edges stays outside the
/// markers.
pub fn toggle_inline(text: &str, sel: Range<usize>, marker: &str) -> (r: FmtEdit)
    requires
        sel_ok(text, sel),
        text.spec_bytes().len() + 2 * marker.spec_bytes().len() <= usize::MAX,
    ensures
        fmt_view(r) == spec_toggle_inline(
            text.spec_bytes(),
            sel.start as int,
            sel.end as int,
            marker.spec_bytes(),
        ),
{
    let ghost t = text.spec_bytes();
    let (start, end) = trim_to_content(text, &sel);
    let content = substr(text, start, end);
    let tb = text.as_bytes();
    let mb = marker.as_bytes();
    let cb = content.as_bytes();
    let m = mb.len();
    let clen = cb.len();
    if clen > 2 * m && bytes_at(cb, 0, mb) && bytes_at(cb, clen - m, mb) {
        proof {
            assert(cb@.subrange(0, m as int) == marker.spec_bytes());
            lemma_boundary_after_valid(cb@, m as int);
            assert(cb@.subrange(clen - m, clen as int) == marker.spec_bytes());
            lemma_boundary_before_valid(cb@, clen - m);
        }
        let inner = substr(content, m, clen - m);
        let mut rep = String::new();
        push_str(&mut rep, inner);
        assert(sbytes(rep) =~= inner.spec_bytes());
        return FmtEdit { range: start..end, select: start..start + (clen - 2 * m), replacement: rep };
    }
    if start >= m && bytes_at(tb, start - m, mb) && bytes_at(tb, end, mb) {
        let mut rep = String::new();
        push_str(&mut rep, content);
        assert(sbytes(rep) =~= content.spec_bytes());
        return FmtEdit {
            range: start - m..end + m,
            replacement: rep,
            select: start - m..start - m + clen,
        };
    }
    let mut rep = String::new();
    push_str(&mut rep, marker);
    push_str(&mut rep, content);
    push_str(&mut rep, marker);
    assert(sbytes(rep) =~= marker.spec_bytes() + content.spec_bytes() + marker.spec_bytes());
    FmtEdit { range: start..end, replacement: rep, select: start + m..start + m + clen }
}

/// `[label](target)` read back as its label, provided the brackets pair
/// up exactly around the whole of `c`.
pub open spec fn spec_unwrap_link(c: Seq<u8>) -> Option<Seq<u8>> {
    if c.len() >= 1 && c[0] == 91 {
        let j = next_byte(c, 1, c.len() as int, 93);
        if j < c.len() && c.len() - (j + 1) >= 2 && c[j + 1] == 40 && c[c.len() - 1] == 41
            && !has_byte(c, j + 2, c.len() - 1, 40) && !has_byte(c, 1, j, 91) {
            Some(c.subrange(1, j))
        } else {
            None
        }
    } else {
        None
    }
}

/// Whether byte `x` occurs in `[a, z)`, computed.
fn any_byte(b: &[u8], a: usize, z: usize, x: u8) -> (r: bool)
    requires
        a <= z <= b@.len(),
    ensures
        r == has_byte(b@, a as int, z as int, x),
{
    let k = find_byte(b, a, z, x);
    proof {
        lemma_next_byte(b@, a as int, z as int, x);
    }
    k < z
}

/// `[label](target)` → `label`, provided the brackets pair up exactly
/// around the whole string.
fn unwrap_link(content: &str) -> (r: Option<String>)
    ensures
        r is None <==> spec_unwrap_link(content.spec_bytes()) is None,
        r matches Some(l) ==> spec_unwrap_link(content.spec_bytes()) == Some(sbytes(l)),
{
    let cb = content.as_bytes();
    let ghost c = cb@;
    let n = cb.len();
    if n < 1 || cb[0] != 91u8 {
        return None;
    }
    let j = find_byte(cb, 1, n, 93u8);
    proof {
        lemma_next_byte(c, 1, n as int, 93u8);
    }
    if !(j < n && n - (j + 1) >= 2 && cb[j + 1] == 40u8 && cb[n - 1] == 41u8) {
        return None;
    }
    if any_byte(cb, j + 2, n - 1, 40u8) || any_byte(cb, 1, j, 91u8) {
        return None;
    }
    proof {
        lemma_ascii_boundary(c, 0);
        lemma_ascii_boundary(c, j as int);
    }
    let label = substr(content, 1, j);
    let mut out = String::new();
    push_str(&mut out, label);
    assert(sbytes(out) =~= label.spec_bytes());
    Some(out)
}

/// What `toggle_link` does to the bytes `t` for the selection `[s0, e0)`.
pub open spec fn spec_toggle_link(t: Seq<u8>, s0: int, e0: int) -> FmtSpec {
    let (s, e) = spec_trim(t, s0, e0);
    let c = t.subrange(s, e);
    match spec_unwrap_link(c) {
        Some(label) => mk_fmt(s, e, label, s, s + label.len()),
        None => {
            let url_start = s + 1 + c.len() + 2;
            mk_fmt(
                s,
                e,
                seq![91u8] + c + seq![93u8, 40u8, 117u8, 114u8, 108u8, 41u8],
                url_start,
                url_start + 3,
            )
        },
    }
}

/// The encoding of ASCII characters, byte for byte.
proof fn lemma_ascii_encoding(cs: Seq<char>, bs: Seq<u8>)
    requires
        is_ascii_chars(cs),
        cs.len() == bs.len(),
        forall|i: int| 0 <= i < cs.len() ==> cs[i] as u8 == bs[i],
    ensures
        encode_utf8(cs) == bs,
{
    is_ascii_chars_encode_utf8(cs);
    assert(encode_utf8(cs) =~= bs);
}

/// The suffix a new link gets: `](url)`.
pub open spec fn link_suffix() -> Seq<u8> {
    seq![93u8, 40u8, 117u8, 114u8, 108u8, 41u8]
}

/// `[c](url)` for clean content `c` is the encoding of characters with
/// no whitespace at either edge.
proof fn lemma_link_is_clean(c: Seq<u8>)
    requires
        c.len() == 0 || exists|mid: Seq<char>|
            c == encode_utf8(mid) && mid.len() > 0 && #[trigger] ws_lead(mid) == 0 && ws_trail(mid) == 0,
    ensures
        exists|mid: Seq<char>|
            seq![91u8] + c + link_suffix() == encode_utf8(mid) && mid.len() > 0 && #[trigger] ws_lead(mid) == 0
                && ws_trail(mid) == 0,
{
    let mid_c: Seq<char> = if c.len() == 0 {
        Seq::<char>::empty()
    } else {
        choose|mid: Seq<char>| c == encode_utf8(mid) && mid.len() > 0 && #[trigger] ws_lead(mid) == 0 && ws_trail(mid) == 0
    };
    assert(encode_utf8(mid_c) == c) by {
        if c.len() == 0 {
            assert(encode_utf8(Seq::<char>::empty()) =~= Seq::<u8>::empty());
            assert(c =~= Seq::<u8>::empty());
        }
    }
    let open_c = seq!['['];
    let close_c = seq![']', '(', 'u', 'r', 'l', ')'];
    let mid = open_c + mid_c + close_c;
    assert(is_ascii_chars(open_c));
    assert(is_ascii_chars(close_c));
    lemma_ascii_encoding(open_c, seq![91u8]);
    lemma_ascii_encoding(close_c, link_suffix());
    crate::text::lemma_encode_concat(open_c, mid_c);
    crate::text::lemma_encode_concat(open_c + mid_c, close_c);
    assert(encode_utf8(mid) == seq![91u8] + c + link_suffix());
    assert(mid[0] == '[');
    assert(mid.last() == ')');
    crate::text::lemma_ws_lead(mid, 0);
    crate::text::lemma_ws_trail(mid, mid.len() as int);
}

/// `[c](url)` reads back as the label `c` when `c` holds no square
/// bracket.
proof fn lemma_link_unwraps(c: Seq<u8>)
    requires
        !has_byte(c, 0, c.len() as int, 91),
        !has_byte(c, 0, c.len() as int, 93),
    ensures
        spec_unwrap_link(seq![91u8] + c + link_suffix()) == Some(c),
{
    let link = seq![91u8] + c + link_suffix();
    let n = link.len() as int;
    let j = next_byte(link, 1, n, 93);
    lemma_next_byte(link, 1, n, 93);
    assert(link[1 + c.len() as int] == 93);
    assert forall|k: int| 1 <= k < 1 + c.len() implies link[k] != 93 && link[k] != 91 by {
        assert(link[k] == c[k - 1]);
    }
    assert(j == 1 + c.len());
    assert(!has_byte(link, j + 2, n - 1, 40)) by {
        if has_byte(link, j + 2, n - 1, 40) {
            let k = choose|k: int| j + 2 <= k < n - 1 && link[k] == 40;
            assert(link[k] == link_suffix()[k - 1 - c.len()]);
        }
    }
    assert(link.subrange(1, j) =~= c);
}

/// Linking a selection and toggling the link again on the whole link
/// that came back gives the text back, with the label selected, when
/// the selection holds no square bracket.
pub proof fn lemma_toggle_link_twice_restores(t: Seq<u8>, s0: int, e0: int)
    requires
        valid_utf8(t),
        0 <= s0 <= e0 <= t.len(),
        is_char_boundary(t, s0),
        is_char_boundary(t, e0),
        !has_byte(t, s0, e0, 91),
        !has_byte(t, s0, e0, 93),
    ensures
        ({
            let e1 = spec_toggle_link(t, s0, e0);
            let t1 = applied(t, e1);
            let e2 = spec_toggle_link(t1, e1.start, e1.start + e1.replacement.len());
            let t2 = applied(t1, e2);
            &&& t2 == t
            &&& t2.subrange(e2.sel_start, e2.sel_end) == t.subrange(e1.start, e1.end)
        }),
{
    let (s, e) = spec_trim(t, s0, e0);
    let c = t.subrange(s, e);
    lemma_trim_clean(t, s0, e0);
    let link = seq![91u8] + c + link_suffix();
    assert(!has_byte(c, 0, c.len() as int, 91) && !has_byte(c, 0, c.len() as int, 93)) by {
        if has_byte(c, 0, c.len() as int, 91) {
            let k = choose|k: int| 0 <= k < c.len() && c[k] == 91;
            assert(t[s + k] == c[k]);
        }
        if has_byte(c, 0, c.len() as int, 93) {
            let k = choose|k: int| 0 <= k < c.len() && c[k] == 93;
            assert(t[s + k] == c[k]);
        }
    }
    assert(spec_unwrap_link(c) is None) by {
        if c.len() >= 1 {
            assert(c[0] != 91);
        }
    }
    let e1 = spec_toggle_link(t, s0, e0);
    assert(e1.replacement =~= link);
    let t1 = applied(t, e1);
    let n = link.len() as int;
    assert(t1.subrange(s, s + n) =~= link);
    lemma_link_is_clean(c);
    let mid = choose|mid: Seq<char>|
        link == encode_utf8(mid) && mid.len() > 0 && #[trigger] ws_lead(mid) == 0 && ws_trail(mid) == 0;
    lemma_trim_fixed(t1, s, mid);
    lemma_link_unwraps(c);
    let e2 = spec_toggle_link(t1, s, s + n);
    assert(e2 == mk_fmt(s, s + n, c, s, s + c.len()));
    let t2 = applied(t1, e2);
    assert(t2 =~= t);
}

fn url_suffix() -> (r: &'static str)
    ensures
        r.spec_bytes() == link_suffix(),
{
    proof {
        reveal_strlit("](url)");
    }
    let r = "](url)";
    proof {
        assert(is_ascii_chars(r@));
        is_ascii_chars_encode_utf8(r@);
        assert(r.spec_bytes() =~= seq![93u8, 40u8, 117u8, 114u8, 108u8, 41u8]);
    }
    r
}

/// Selection → `[selection](url)` with `url` selected for typing over;
/// a selected `[label](target)` unwraps back to `label`.
pub fn toggle_link(text: &str, sel: Range<usize>) -> (r: FmtEdit)
    requires
        sel_ok(text, sel),
        text.spec_bytes().len() + 6 <= usize::MAX,
    ensures
        fmt_view(r) == spec_toggle_link(text.spec_bytes(), sel.start as int, sel.end as int),
{
    let (start, end) = trim_to_content(text, &sel);
    let content = substr(text, start, end);
    let clen = content.as_bytes().len();
    match unwrap_link(content) {
        Some(label) => {
            let llen = label.as_str().as_bytes().len();
            assert(llen == sbytes(label).len());
            proof {
                let c = content.spec_bytes();
                lemma_next_byte(c, 1, c.len() as int, 93u8);
                assert(sbytes(label) == c.subrange(1, next_byte(c, 1, c.len() as int, 93u8)));
            }
            assert(llen <= clen);
            FmtEdit { range: start..end, select: start..start + llen, replacement: label }
        },
        None => {
            let mut rep = String::new();
            push_str(&mut rep, ascii_str(91u8));
            push_str(&mut rep, content);
            push_str(&mut rep, url_suffix());
            assert(sbytes(rep) =~= seq![91u8] + content.spec_bytes() + seq![
                93u8,
                40u8,
                117u8,
                114u8,
                108u8,
                41u8,
            ]);
            let url_start = start + 1 + clen + 2;
            FmtEdit { range: start..end, replacement: rep, select: url_start..url_start + 3 }
        },
    }
}

/// The heading prefix of a line: its length (hashes plus one space, or a
/// line of nothing but hashes) and the heading level it gives, both 0
/// when the line is no heading.
pub open spec fn heading_prefix(line: Seq<u8>) -> (int, int) {
    let h = run_fwd(line, 0, 35);
    let old = if h > 0 && h < line.len() && line[h] == 32 {
        h + 1
    } else if h > 0 && line.len() == h {
        h
    } else {
        0
    };
    (old, if old > 0 {
        h
    } else {
        0
    })
}

/// The prefix of the next level: none → `# ` → `## ` → `### ` → none.
pub open spec fn next_heading_marks(level: int) -> Seq<u8> {
    if level == 0 {
        seq![35u8, 32u8]
    } else if level == 1 {
        seq![35u8, 35u8, 32u8]
    } else if level == 2 {
        seq![35u8, 35u8, 35u8, 32u8]
    } else {
        seq![]
    }
}

/// An offset moved by `delta` when it lies on or past `ls`, never
/// before `ls`.
pub open spec fn shift_offset(o: int, ls: int, delta: int) -> int {
    if o < ls {
        o
    } else if o + delta < ls {
        ls
    } else {
        o + delta
    }
}

/// What `cycle_heading` does to the bytes `t` for the selection `[s, e)`.
pub open spec fn spec_cycle_heading(t: Seq<u8>, s: int, e: int) -> FmtSpec {
    let ls = line_start_at(t, s);
    let le = next_nl(t, ls, t.len() as int);
    let (old, level) = heading_prefix(t.subrange(ls, le));
    let np = next_heading_marks(level);
    let delta = np.len() - old;
    mk_fmt(ls, ls + old, np, shift_offset(s, ls, delta), shift_offset(e, ls, delta))
}

fn heading_marks(level: usize) -> (r: &'static str)
    ensures
        r.spec_bytes() == next_heading_marks(level as int),
{
    let r = if level == 0 {
        proof {
            reveal_strlit("# ");
        }
        "# "
    } else if level == 1 {
        proof {
            reveal_strlit("## ");
        }
        "## "
    } else if level == 2 {
        proof {
            reveal_strlit("### ");
        }
        "### "
    } else {
        proof {
            reveal_strlit("");
        }
        ""
    };
    proof {
        assert(is_ascii_chars(r@));
        is_ascii_chars_encode_utf8(r@);
        assert(r.spec_bytes() =~= next_heading_marks(level as int));
    }
    r
}

fn shift(o: usize, ls: usize, np: usize, old: usize) -> (r: usize)
    requires
        o + 4 <= usize::MAX,
        np <= 4,
    ensures
        r == shift_offset(o as int, ls as int, np - old),
{
    if o < ls {
        o
    } else if np >= old {
        o + (np - old)
    } else if o - ls >= old - np {
        o - (old - np)
    } else {
        ls
    }
}

/// Cycle the heading level of the line holding the selection start:
/// none → # → ## → ### → none. The selection moves with the prefix,
/// clamped to the line.
pub fn cycle_heading(text: &str, sel: Range<usize>) -> (r: FmtEdit)
    requires
        sel.start <= text.spec_bytes().len(),
        boundary(text, sel.start as int),
        sel.start + 4 <= isize::MAX,
        sel.end + 4 <= isize::MAX,
    ensures
        fmt_view(r) == spec_cycle_heading(text.spec_bytes(), sel.start as int, sel.end as int),
{
    let tb = text.as_bytes();
    let ghost t = tb@;
    let n = tb.len();
    let ls = find_line_start(tb, sel.start);
    proof {
        lemma_line_start_at(t, sel.start as int);
    }
    let le = find_newline(tb, ls, n);
    proof {
        lemma_next_nl(t, ls as int, n as int);
    }
    let ghost line = t.subrange(ls as int, le as int);
    let mut h: usize = 0;
    while ls + h < le && tb[ls + h] == 35u8
        invariant
            ls <= le <= n == t.len(),
            tb@ == t,
            ls + h <= le,
            line == t.subrange(ls as int, le as int),
            run_fwd(line, 0, 35) == h + run_fwd(line, h as int, 35),
        decreases le - ls - h,
    {
        h += 1;
    }
    let old = if h > 0 && ls + h < le && tb[ls + h] == 32u8 {
        h + 1
    } else if h > 0 && le - ls == h {
        h
    } else {
        0
    };
    let level = if old > 0 {
        h
    } else {
        0
    };
    let marks = heading_marks(level);
    let np = marks.as_bytes().len();
    assert(np == next_heading_marks(level as int).len());
    assert(np <= 4) by {
        let k = next_heading_marks(level as int);
        if level == 0 {
            assert(k =~= seq![35u8, 32u8]);
        } else if level == 1 {
            assert(k =~= seq![35u8, 35u8, 32u8]);
        } else if level == 2 {
            assert(k =~= seq![35u8, 35u8, 35u8, 32u8]);
        } else {
            assert(k =~= Seq::<u8>::empty());
        }
    }
    let mut rep = String::new();
    push_str(&mut rep, marks);
    assert(sbytes(rep) =~= marks.spec_bytes());
    FmtEdit {
        range: ls..ls + old,
        replacement: rep,
        select: shift(sel.start, ls, np, old)..shift(sel.end, ls, np, old),
    }
}

/// The prefix of a level-`k` heading: nothing for level 0, then `# `,
/// `## ` and `### `.
pub open spec fn heading_marks_of(k: int) -> Seq<u8> {
    if k == 0 {
        seq![]
    } else {
        next_heading_marks(k - 1)
    }
}

/// The level after `k` in the cycle none → 1 → 2 → 3 → none.
pub open spec fn next_level(k: int) -> int {
    if k == 3 {
        0
    } else {
        k + 1
    }
}

/// The line of `s` starts at `p` when `p` starts a line and no newline
/// lies between them.
proof fn lemma_line_start_from(t: Seq<u8>, p: int, s: int)
    requires
        0 <= p <= s <= t.len(),
        p == 0 || t[p - 1] == 10,
        forall|k: int| p <= k < s ==> t[k] != 10,
    ensures
        line_start_at(t, s) == p,
    decreases s,
{
    if s > p {
        lemma_line_start_from(t, p, s - 1);
    }
}

/// The first newline from `p` is at `q` when none lies before it.
proof fn lemma_next_nl_at(t: Seq<u8>, p: int, q: int, end: int)
    requires
        0 <= p <= q <= end <= t.len(),
        forall|k: int| p <= k < q ==> t[k] != 10,
        q == end || t[q] == 10,
    ensures
        next_nl(t, p, end) == q,
    decreases q - p,
{
    if p < q {
        lemma_next_nl_at(t, p + 1, q, end);
    }
}

/// A line that carries the level-`k` prefix before text `x` (which is
/// itself no heading when `k` is 0) is a level-`k` heading with that
/// prefix.
proof fn lemma_marked_line(k: int, x: Seq<u8>)
    requires
        0 <= k <= 3,
        k == 0 ==> heading_prefix(x).1 == 0,
    ensures
        heading_prefix(heading_marks_of(k) + x) == (heading_marks_of(k).len() as int, k),
{
    let l = heading_marks_of(k) + x;
    if k == 0 {
        assert(l =~= x);
    } else if k == 1 {
        assert(heading_marks_of(1) =~= seq![35u8, 32u8]);
        assert(l[0] == 35 && l[1] == 32);
        assert(run_fwd(l, 1, 35) == 0);
        assert(run_fwd(l, 0, 35) == 1);
    } else if k == 2 {
        assert(heading_marks_of(2) =~= seq![35u8, 35u8, 32u8]);
        assert(l[0] == 35 && l[1] == 35 && l[2] == 32);
        assert(run_fwd(l, 2, 35) == 0);
        assert(run_fwd(l, 1, 35) == 1);
        assert(run_fwd(l, 0, 35) == 2);
    } else {
        assert(heading_marks_of(3) =~= seq![35u8, 35u8, 35u8, 32u8]);
        assert(l[0] == 35 && l[1] == 35 && l[2] == 35 && l[3] == 32);
        assert(run_fwd(l, 3, 35) == 0);
        assert(run_fwd(l, 2, 35) == 1);
        assert(run_fwd(l, 1, 35) == 2);
        assert(run_fwd(l, 0, 35) == 3);
    }
}

/// One step of the cycle on the line `heading_marks_of(k) + x`, which
/// sits between `a` (ending a line) and `b` (starting with a newline or
/// empty), with the selection starting on that line: the prefix becomes
/// the next level's, and the selection moves with it.
proof fn lemma_cycle_step(a: Seq<u8>, k: int, x: Seq<u8>, b: Seq<u8>, s: int, e: int)
    requires
        0 <= k <= 3,
        k == 0 ==> heading_prefix(x).1 == 0,
        a.len() == 0 || a[a.len() - 1] == 10,
        forall|i: int| 0 <= i < x.len() ==> x[i] != 10,
        b.len() == 0 || b[0] == 10,
        a.len() <= s <= a.len() + heading_marks_of(k).len() + x.len(),
    ensures
        ({
            let t = a + heading_marks_of(k) + x + b;
            let np = heading_marks_of(next_level(k));
            let delta = np.len() - heading_marks_of(k).len();
            &&& spec_cycle_heading(t, s, e) == mk_fmt(
                a.len() as int,
                (a.len() + heading_marks_of(k).len()) as int,
                np,
                shift_offset(s, a.len() as int, delta),
                shift_offset(e, a.len() as int, delta),
            )
            &&& applied(t, spec_cycle_heading(t, s, e)) == a + np + x + b
        }),
{
    let m = heading_marks_of(k);
    let t = a + m + x + b;
    let ls = a.len() as int;
    let le = ls + m.len() + x.len();
    assert(m.len() <= 4) by {
        if k == 1 {
            assert(m =~= seq![35u8, 32u8]);
        } else if k == 2 {
            assert(m =~= seq![35u8, 35u8, 32u8]);
        } else if k == 3 {
            assert(m =~= seq![35u8, 35u8, 35u8, 32u8]);
        }
    }
    assert forall|i: int| 0 <= i < m.len() implies m[i] != 10 by {
        if k == 1 {
            assert(m =~= seq![35u8, 32u8]);
        } else if k == 2 {
            assert(m =~= seq![35u8, 35u8, 32u8]);
        } else if k == 3 {
            assert(m =~= seq![35u8, 35u8, 35u8, 32u8]);
        }
    }
    assert forall|i: int| ls <= i < le implies t[i] != 10 by {
        if i < ls + m.len() {
            assert(t[i] == m[i - ls]);
        } else {
            assert(t[i] == x[i - ls - m.len()]);
        }
    }
    if ls > 0 {
        assert(t[ls - 1] == a[ls - 1]);
    }
    lemma_line_start_from(t, ls, s);
    if le < t.len() {
        assert(t[le] == b[0]);
    }
    lemma_next_nl_at(t, ls, le, t.len() as int);
    assert(t.subrange(ls, le) =~= m + x);
    lemma_marked_line(k, x);
    assert(heading_marks_of(next_level(k)) == next_heading_marks(k));
    let np = heading_marks_of(next_level(k));
    assert(t.subrange(0, ls) =~= a);
    assert(t.subrange(ls + m.len(), t.len() as int) =~= x + b);
}

/// The heading cycle none → `#` → `##` → `###` → none: on a line that
/// is no heading, four steps with the selection each one leaves make
/// the line a heading of level 1, 2 and 3 in turn, then give back the
/// text and the selection as they were.
#[verifier::rlimit(60)]
pub proof fn lemma_cycle_heading_four_times_restores(t: Seq<u8>, s: int, e: int)
    requires
        0 <= s <= t.len(),
        heading_prefix(t.subrange(line_start_at(t, s), next_nl(t, line_start_at(t, s), t.len() as int))).1 == 0,
    ensures
        ({
            let ls = line_start_at(t, s);
            let e1 = spec_cycle_heading(t, s, e);
            let t1 = applied(t, e1);
            let e2 = spec_cycle_heading(t1, e1.sel_start, e1.sel_end);
            let t2 = applied(t1, e2);
            let e3 = spec_cycle_heading(t2, e2.sel_start, e2.sel_end);
            let t3 = applied(t2, e3);
            let e4 = spec_cycle_heading(t3, e3.sel_start, e3.sel_end);
            let t4 = applied(t3, e4);
            &&& t1 == t.subrange(0, ls) + heading_marks_of(1) + t.subrange(ls, t.len() as int)
            &&& t2 == t.subrange(0, ls) + heading_marks_of(2) + t.subrange(ls, t.len() as int)
            &&& t3 == t.subrange(0, ls) + heading_marks_of(3) + t.subrange(ls, t.len() as int)
            &&& t4 == t
            &&& e4.sel_start == s
            &&& e4.sel_end == e
        }),
{
    let ls = line_start_at(t, s);
    lemma_line_start_at(t, s);
    let le = next_nl(t, ls, t.len() as int);
    lemma_next_nl(t, ls, t.len() as int);
    let a = t.subrange(0, ls);
    let x = t.subrange(ls, le);
    let b = t.subrange(le, t.len() as int);
    assert(t =~= a + heading_marks_of(0) + x + b);
    if ls > 0 {
        assert(a[ls - 1] == t[ls - 1]);
    }
    assert(s <= le) by {
        if s > le {
            assert(t[le] == 10);
        }
    }
    lemma_cycle_step(a, 0, x, b, s, e);
    let e1 = spec_cycle_heading(t, s, e);
    let t1 = applied(t, e1);
    let s1 = e1.sel_start;
    lemma_cycle_step(a, 1, x, b, s1, e1.sel_end);
    let e2 = spec_cycle_heading(t1, s1, e1.sel_end);
    let t2 = applied(t1, e2);
    let s2 = e2.sel_start;
    lemma_cycle_step(a, 2, x, b, s2, e2.sel_end);
    let e3 = spec_cycle_heading(t2, s2, e2.sel_end);
    let t3 = applied(t2, e3);
    lemma_cycle_step(a, 3, x, b, e3.sel_start, e3.sel_end);
    let e4 = spec_cycle_heading(t3, e3.sel_start, e3.sel_end);
    let t4 = applied(t3, e4);
    assert(heading_marks_of(1).len() == 2) by {
        assert(heading_marks_of(1) =~= seq![35u8, 32u8]);
    }
    assert(heading_marks_of(2).len() == 3) by {
        assert(heading_marks_of(2) =~= seq![35u8, 35u8, 32u8]);
    }
    assert(heading_marks_of(3).len() == 4) by {
        assert(heading_marks_of(3) =~= seq![35u8, 35u8, 35u8, 32u8]);
    }
    assert(t.subrange(ls, t.len() as int) =~= x + b);
    assert(t1 =~= a + heading_marks_of(1) + (x + b));
    assert(t2 =~= a + heading_marks_of(2) + (x + b));
    assert(t3 =~= a + heading_marks_of(3) + (x + b));
    assert(t4 =~= t);
}

/// The lines of `t[p..end)` as byte ranges, as `str::lines` cuts them:
/// on each `\n` (a `\r` before it dropped too), with no empty line after
/// a final `\n`.
pub open spec fn line_ranges(t: Seq<u8>, p: int, end: int) -> Seq<(int, int)>
    decreases end - p,
{
    if p >= end || end > t.len() || p < 0 {
        seq![]
    } else {
        let nl = next_nl(t, p, end);
        if nl < end {
            let stop = if nl > p && t[nl - 1] == 13 {
                nl - 1
            } else {
                nl
            };
            proof {
                lemma_next_nl(t, p, end);
            }
            seq![(p, stop)] + line_ranges(t, nl + 1, end)
        } else {
            seq![(p, end)]
        }
    }
}

/// One line of the block, quoted or (when every line is quoted)
/// unquoted.
pub open spec fn quote_line(t: Seq<u8>, r: (int, int), unquote: bool) -> Seq<u8> {
    let l = t.subrange(r.0, r.1);
    if unquote {
        let l1 = l.subrange(1, l.len() as int);
        if l1.len() > 0 && l1[0] == 32 {
            l1.subrange(1, l1.len() as int)
        } else {
            l1
        }
    } else {
        seq![62u8, 32u8] + l
    }
}

/// The lines, each quoted or unquoted, joined by `\n`.
pub open spec fn join_quoted(t: Seq<u8>, rs: Seq<(int, int)>, unquote: bool) -> Seq<u8>
    decreases rs.len(),
{
    if rs.len() == 0 {
        seq![]
    } else if rs.len() == 1 {
        quote_line(t, rs[0], unquote)
    } else {
        join_quoted(t, rs.drop_last(), unquote) + seq![10u8] + quote_line(t, rs.last(), unquote)
    }
}

/// Every line starts with `>`.
pub open spec fn all_quoted(t: Seq<u8>, rs: Seq<(int, int)>) -> bool {
    forall|i: int| 0 <= i < rs.len() ==> (#[trigger] rs[i]).0 < rs[i].1 && t[rs[i].0] == 62
}

/// What `toggle_quote` does to the bytes `t` for the selection `[s, e)`.
pub open spec fn spec_toggle_quote(t: Seq<u8>, s: int, e: int) -> FmtSpec {
    let bs = line_start_at(t, s);
    let be = next_nl(t, e, t.len() as int);
    let rs = line_ranges(t, bs, be);
    let rep = join_quoted(t, rs, all_quoted(t, rs));
    mk_fmt(bs, be, rep, bs, bs + rep.len())
}

pub open spec fn ranges_view(v: Seq<(usize, usize)>) -> Seq<(int, int)> {
    Seq::new(v.len(), |i: int| (v[i].0 as int, v[i].1 as int))
}

/// A line range of the block `[bs, be)` of `t`: inside the block,
/// starting the block or just past a newline, ending the block or at a
/// newline or carriage return.
pub open spec fn line_range_ok(t: Seq<u8>, bs: int, be: int, r: (int, int)) -> bool {
    &&& bs <= r.0 <= r.1 <= be
    &&& (r.0 == bs || t[r.0 - 1] == 10)
    &&& (r.1 == be || t[r.1] == 10 || t[r.1] == 13)
}

/// The line ranges of `[bs, be)`, computed.
pub(crate) fn lines_of(tb: &[u8], bs: usize, be: usize) -> (r: Vec<(usize, usize)>)
    requires
        bs <= be <= tb@.len(),
    ensures
        ranges_view(r@) == line_ranges(tb@, bs as int, be as int),
        forall|i: int| 0 <= i < r@.len() ==> line_range_ok(tb@, bs as int, be as int, #[trigger] ranges_view(r@)[i]),
        forall|i: int, j: int| 0 <= i < j < r@.len() ==> (#[trigger] r@[i]).1 < (#[trigger] r@[j]).0,
{
    let ghost t = tb@;
    let mut v: Vec<(usize, usize)> = Vec::new();
    let mut p = bs;
    assert(ranges_view(v@) =~= Seq::<(int, int)>::empty());
    while p < be
        invariant_except_break
            bs <= p <= be,
            p == bs || t[p - 1] == 10,
            forall|i: int| 0 <= i < v@.len() ==> (#[trigger] v@[i]).1 < p,
            line_ranges(t, bs as int, be as int) == ranges_view(v@) + line_ranges(t, p as int, be as int),
        invariant
            be <= t.len(),
            tb@ == t,
            forall|i: int| 0 <= i < v@.len() ==> line_range_ok(t, bs as int, be as int, #[trigger] ranges_view(v@)[i]),
            forall|i: int, j: int| 0 <= i < j < v@.len() ==> (#[trigger] v@[i]).1 < (#[trigger] v@[j]).0,
        ensures
            line_ranges(t, bs as int, be as int) == ranges_view(v@),
        decreases be - p,
    {
        let nl = find_newline(tb, p, be);
        proof {
            lemma_next_nl(t, p as int, be as int);
        }
        let ghost before = v@;
        if nl < be {
            let stop = if nl > p && tb[nl - 1] == 13u8 {
                nl - 1
            } else {
                nl
            };
            v.push((p, stop));
            assert(ranges_view(v@) =~= ranges_view(before) + seq![(p as int, stop as int)]);
            assert(line_ranges(t, p as int, be as int) == seq![(p as int, stop as int)] + line_ranges(t, nl + 1, be as int));
            p = nl + 1;
        } else {
            v.push((p, be));
            assert(ranges_view(v@) =~= ranges_view(before) + seq![(p as int, be as int)]);
            assert(line_ranges(t, p as int, be as int) == seq![(p as int, be as int)]);
            assert(line_ranges(t, bs as int, be as int) =~= ranges_view(v@));
            break;
        }
    }
    if p >= be {
        assert(line_ranges(t, p as int, be as int) == Seq::<(int, int)>::empty());
        assert(line_ranges(t, bs as int, be as int) =~= ranges_view(v@));
    }
    v
}

/// Appends one line of the block, after a newline unless it is the
/// first, quoted or unquoted.
#[verifier::rlimit(40)]
fn push_quoted_line(text: &str, out: &mut String, bs: usize, be: usize, a: usize, b: usize, unquote: bool, first: bool)
    requires
        valid_utf8(text.spec_bytes()),
        be <= text.spec_bytes().len(),
        boundary(text, bs as int),
        boundary(text, be as int),
        line_range_ok(text.spec_bytes(), bs as int, be as int, (a as int, b as int)),
        unquote ==> a < b && text.spec_bytes()[a as int] == 62,
    ensures
        sbytes(*final(out)) == sbytes(*old(out)) + (if first {
            Seq::<u8>::empty()
        } else {
            seq![10u8]
        }) + quote_line(text.spec_bytes(), (a as int, b as int), unquote),
{
    let tb = text.as_bytes();
    let ghost t = tb@;
    let ghost start = sbytes(*out);
    proof {
        if a > bs {
            lemma_ascii_boundary(t, a - 1);
        }
        if b < be {
            lemma_ascii_boundary(t, b as int);
        }
    }
    if !first {
        push_str(out, ascii_str(10u8));
    }
    let ghost mid = sbytes(*out);
    if unquote {
        proof {
            lemma_ascii_boundary(t, a as int);
        }
        let a1 = a + 1;
        let a2 = if a1 < b && tb[a1] == 32u8 {
            proof {
                lemma_ascii_boundary(t, a1 as int);
            }
            a1 + 1
        } else {
            a1
        };
        push_str(out, substr(text, a2, b));
        assert(sbytes(*out) =~= mid + quote_line(t, (a as int, b as int), unquote));
    } else {
        push_str(out, ascii_str(62u8));
        push_str(out, ascii_str(32u8));
        push_str(out, substr(text, a, b));
        assert(sbytes(*out) =~= mid + quote_line(t, (a as int, b as int), unquote));
    }
}

/// Quote or unquote every line the selection touches: unquote when
/// every line already starts with `>` (dropping the `>` and one space
/// after it), quote with `> ` otherwise.
pub fn toggle_quote(text: &str, sel: Range<usize>) -> (r: FmtEdit)
    requires
        sel_ok(text, sel),
        3 * text.spec_bytes().len() + 2 <= usize::MAX,
    ensures
        fmt_view(r) == spec_toggle_quote(text.spec_bytes(), sel.start as int, sel.end as int),
{
    let tb = text.as_bytes();
    let ghost t = tb@;
    let n = tb.len();
    let bs = find_line_start(tb, sel.start);
    let be = find_newline(tb, sel.end, n);
    proof {
        lemma_line_start_at(t, sel.start as int);
        lemma_next_nl(t, sel.end as int, n as int);
        if bs > 0 {
            lemma_ascii_boundary(t, bs - 1);
        }
        if be < n {
            lemma_ascii_boundary(t, be as int);
        }
    }
    let v = lines_of(tb, bs, be);
    let ghost rs = ranges_view(v@);
    let k_n = v.len();
    let mut unquote = true;
    let mut k: usize = 0;
    while k < k_n
        invariant
            k <= k_n == v@.len() == rs.len(),
            rs == ranges_view(v@),
            tb@ == t,
            be <= t.len(),
            forall|i: int| 0 <= i < rs.len() ==> line_range_ok(t, bs as int, be as int, #[trigger] rs[i]),
            unquote == (forall|i: int| 0 <= i < k ==> (#[trigger] rs[i]).0 < rs[i].1 && t[rs[i].0] == 62),
        decreases k_n - k,
    {
        let (a, b) = v[k];
        assert(rs[k as int] == (a as int, b as int));
        if !(a < b && tb[a] == 62u8) {
            unquote = false;
        }
        k += 1;
    }
    assert(unquote == all_quoted(t, rs));
    let mut out = String::new();
    let mut k: usize = 0;
    let mut prev_end: usize = bs;
    assert(rs.take(0) =~= Seq::<(int, int)>::empty());
    while k < k_n
        invariant
            k <= k_n == v@.len() == rs.len(),
            rs == ranges_view(v@),
            tb@ == t,
            t == text.spec_bytes(),
            valid_utf8(t),
            bs <= prev_end <= be <= n == t.len(),
            3 * t.len() + 2 <= usize::MAX,
            boundary(text, bs as int),
            boundary(text, be as int),
            unquote == all_quoted(t, rs),
            forall|i: int| 0 <= i < rs.len() ==> line_range_ok(t, bs as int, be as int, #[trigger] rs[i]),
            forall|i: int, j: int| 0 <= i < j < v@.len() ==> (#[trigger] v@[i]).1 < (#[trigger] v@[j]).0,
            k > 0 ==> prev_end == v@[k - 1].1,
            sbytes(out) == join_quoted(t, rs.take(k as int), unquote),
            sbytes(out).len() <= 3 * (prev_end - bs) + 2,
            k == 0 ==> sbytes(out).len() == 0,
        decreases k_n - k,
    {
        let (a, b) = v[k];
        assert(rs[k as int] == (a as int, b as int));
        assert(line_range_ok(t, bs as int, be as int, rs[k as int]));
        proof {
            if k > 0 {
                assert(v@[k - 1].1 < v@[k as int].0);
            }
            if unquote {
                assert(rs[k as int].0 < rs[k as int].1 && t[rs[k as int].0] == 62);
            }
        }
        let ghost mid0 = sbytes(out);
        push_quoted_line(text, &mut out, bs, be, a, b, unquote, k == 0);
        let ghost mid = if k == 0 {
            mid0
        } else {
            mid0 + seq![10u8]
        };
        proof {
            let tk1 = rs.take(k + 1);
            assert(tk1.drop_last() =~= rs.take(k as int));
            assert(tk1.last() == rs[k as int]);
            if k == 0 {
                assert(mid =~= Seq::<u8>::empty());
                assert(sbytes(out) =~= join_quoted(t, tk1, unquote));
            } else {
                assert(sbytes(out) =~= join_quoted(t, rs.take(k as int), unquote) + seq![10u8]
                    + quote_line(t, rs[k as int], unquote));
            }
        }
        prev_end = b;
        k += 1;
    }
    assert(rs.take(k_n as int) =~= rs);
    let olen = out.as_str().as_bytes().len();
    assert(olen == sbytes(out).len());
    FmtEdit { select: bs..bs + olen, range: bs..be, replacement: out }
}

/// No `\r\n` pair lies inside `[p, end)`.
pub open spec fn no_crlf(t: Seq<u8>, p: int, end: int) -> bool {
    forall|k: int| p <= k && k + 1 < end ==> !(#[trigger] t[k] == 13 && t[k + 1] == 10)
}

/// Joining a first line to the others.
proof fn lemma_join_cons(t: Seq<u8>, r0: (int, int), rest: Seq<(int, int)>, unquote: bool)
    requires
        rest.len() >= 1,
    ensures
        join_quoted(t, seq![r0] + rest, unquote) == quote_line(t, r0, unquote) + seq![10u8] + join_quoted(
            t,
            rest,
            unquote,
        ),
    decreases rest.len(),
{
    let all = seq![r0] + rest;
    assert(all.drop_last() =~= seq![r0] + rest.drop_last());
    assert(all.last() == rest.last());
    if rest.len() == 1 {
        assert(seq![r0].len() == 1);
        assert(join_quoted(t, seq![r0], unquote) == quote_line(t, r0, unquote));
    } else {
        lemma_join_cons(t, r0, rest.drop_last(), unquote);
    }
}

/// Lines with no `\r\n` inside, quoted, then read as lines again and
/// unquoted, give the text back: the quoted text `q` of `t[p..end)`,
/// found at `off` in `u`, has every line quoted, and unquoting them
/// restores `t[p..end)`.
proof fn lemma_unquote_quoted(t: Seq<u8>, p: int, end: int, u: Seq<u8>, off: int)
    requires
        0 <= p <= end <= t.len(),
        no_crlf(t, p, end),
        p < end ==> t[end - 1] != 10,
        0 <= off,
        off + join_quoted(t, line_ranges(t, p, end), false).len() <= u.len(),
        u.subrange(off, off + join_quoted(t, line_ranges(t, p, end), false).len()) == join_quoted(
            t,
            line_ranges(t, p, end),
            false,
        ),
    ensures
        ({
            let q = join_quoted(t, line_ranges(t, p, end), false);
            let rs2 = line_ranges(u, off, off + q.len());
            &&& all_quoted(u, rs2)
            &&& join_quoted(u, rs2, true) == t.subrange(p, end)
            &&& (q.len() > 0 <==> p < end)
        }),
    decreases end - p,
{
    let rs = line_ranges(t, p, end);
    let q = join_quoted(t, rs, false);
    if p >= end {
        assert(rs.len() == 0);
        assert(q.len() == 0);
        assert(line_ranges(u, off, off).len() == 0);
        assert(t.subrange(p, end) =~= Seq::<u8>::empty());
        return;
    }
    let nl = next_nl(t, p, end);
    lemma_next_nl(t, p, end);
    let seg = t.subrange(p, nl);
    let first = seq![62u8, 32u8] + seg;
    assert(quote_line(t, (p, nl), false) == first);
    if nl == end {
        assert(rs == seq![(p, end)]);
        assert(q == first);
        // the quoted line holds no newline
        assert forall|k: int| off <= k < off + q.len() implies u[k] != 10 by {
            assert(u[k] == q[k - off]);
            if k - off >= 2 {
                assert(q[k - off] == t[p + k - off - 2]);
            }
        }
        lemma_next_nl_at(u, off, off + q.len(), off + q.len());
        assert(line_ranges(u, off, off + q.len()) == seq![(off, off + q.len())]);
        let l = u.subrange(off, off + q.len());
        assert(l == q);
        assert(u[off] == q[0]);
        let l1 = l.subrange(1, l.len() as int);
        assert(l1[0] == 32);
        assert(l1.subrange(1, l1.len() as int) =~= t.subrange(p, end));
    } else {
        // the line ends at the newline: no carriage return before it
        assert(nl + 1 < end);
        if nl > p {
            assert(!(t[nl - 1] == 13 && t[nl] == 10));
        }
        let rest = line_ranges(t, nl + 1, end);
        assert(rs == seq![(p, nl)] + rest);
        assert(rest.len() >= 1);
        lemma_join_cons(t, (p, nl), rest, false);
        let qr = join_quoted(t, rest, false);
        assert(q == first + seq![10u8] + qr);
        let m = off + first.len();
        assert(u.subrange(m + 1, m + 1 + qr.len()) =~= qr) by {
            assert forall|k: int| 0 <= k < qr.len() implies u[m + 1 + k] == qr[k] by {
                assert(u[m + 1 + k] == q[first.len() + 1 + k]);
            }
        }
        assert(no_crlf(t, nl + 1, end));
        lemma_unquote_quoted(t, nl + 1, end, u, m + 1);
        let rs2r = line_ranges(u, m + 1, m + 1 + qr.len());
        assert forall|k: int| off <= k < m implies u[k] != 10 by {
            assert(u[k] == q[k - off]);
            assert(q[k - off] == first[k - off]);
            if k - off >= 2 {
                assert(first[k - off] == t[p + k - off - 2]);
            }
        }
        assert(u[m] == q[first.len() as int]);
        assert(u[m] == 10);
        lemma_next_nl_at(u, off, m, off + q.len());
        assert(u[m - 1] != 13) by {
            assert(u[m - 1] == q[m - 1 - off]);
            assert(q[m - 1 - off] == first[first.len() - 1]);
            if seg.len() > 0 {
                assert(first[first.len() - 1] == t[nl - 1]);
            }
        }
        assert(line_ranges(u, off, off + q.len()) == seq![(off, m)] + rs2r);
        assert(rs2r.len() >= 1);
        lemma_join_cons(u, (off, m), rs2r, true);
        let l = u.subrange(off, m);
        assert(l =~= first);
        let l1 = l.subrange(1, l.len() as int);
        assert(l1[0] == 32);
        assert(quote_line(u, (off, m), true) =~= seg);
        assert(u[off] == q[0]);
        assert(q[0] == first[0]);
        assert(u[off] == 62);
        let rs2 = seq![(off, m)] + rs2r;
        assert forall|i: int| 0 <= i < rs2.len() implies (#[trigger] rs2[i]).0 < rs2[i].1 && u[rs2[i].0] == 62 by {
            if i > 0 {
                assert(rs2[i] == rs2r[i - 1]);
            }
        }
        assert(t.subrange(p, end) =~= seg + seq![10u8] + t.subrange(nl + 1, end));
    }
}

/// Quoting the lines a selection touches and toggling again on the
/// quoted block that comes back gives the text back, with the block
/// selected, when not every line was quoted already, no line of the
/// block ends in `\r\n`, and the block does not end on a newline.
pub proof fn lemma_toggle_quote_twice_restores(t: Seq<u8>, s: int, e: int)
    requires
        0 <= s <= e <= t.len(),
        ({
            let bs = line_start_at(t, s);
            let be = next_nl(t, e, t.len() as int);
            &&& !all_quoted(t, line_ranges(t, bs, be))
            &&& no_crlf(t, bs, be)
            &&& (bs < be ==> t[be - 1] != 10)
        }),
    ensures
        ({
            let e1 = spec_toggle_quote(t, s, e);
            let t1 = applied(t, e1);
            let e2 = spec_toggle_quote(t1, e1.sel_start, e1.sel_end);
            let t2 = applied(t1, e2);
            &&& t2 == t
            &&& e2.sel_start == e1.start
            &&& e2.sel_end == e1.end
        }),
{
    let bs = line_start_at(t, s);
    let be = next_nl(t, e, t.len() as int);
    lemma_line_start_at(t, s);
    lemma_next_nl(t, e, t.len() as int);
    let rs = line_ranges(t, bs, be);
    let q = join_quoted(t, rs, false);
    let e1 = spec_toggle_quote(t, s, e);
    assert(e1 == mk_fmt(bs, be, q, bs, bs + q.len()));
    let t1 = applied(t, e1);
    assert(t1.subrange(bs, bs + q.len()) =~= q);
    lemma_unquote_quoted(t, bs, be, t1, bs);
    // the second toggle sees exactly the quoted block
    if bs > 0 {
        assert(t1[bs - 1] == t[bs - 1]);
    }
    lemma_line_start_from(t1, bs, bs);
    if bs + q.len() < t1.len() {
        assert(t1[bs + q.len()] == t[be]);
    }
    lemma_next_nl_at(t1, bs + q.len(), bs + q.len(), t1.len() as int);
    let e2 = spec_toggle_quote(t1, bs, bs + q.len());
    assert(e2 == mk_fmt(bs, bs + q.len(), t.subrange(bs, be), bs, be));
    let t2 = applied(t1, e2);
    assert(t2 =~= t);
}

} // verus!
