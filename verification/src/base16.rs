//! base16 schemes -> SuperMD theme files.
//!
//! `tinted-theming/schemes` publishes palettes in one format: sixteen
//! slots, `base00`-`base07` running background to foreground and
//! `base08`-`base0F` holding red, orange, yellow, green, cyan, blue,
//! magenta and brown, plus a `variant` of `dark` or `light`. This module
//! reads that format, names where each colour of a theme came from, and
//! writes the theme file. The colour science that picks the theme's
//! colours works in floating point and lives with the shell.
use vstd::prelude::*;
use vstd::utf8::*;
use vstd::string::*;
use crate::bookmarks::{hex_bytes, hex_encode, hex_value, spec_hex_decode};
use crate::text::{
    chars_of, push_char, push_str, sbytes, string_of, str_eq, substr, trim_end_range, trim_range,
    trimmed, trimmed_end,
};
use crate::editor::formatting::{line_ranges, ranges_view, line_range_ok, lines_of};

verus! {

broadcast use vstd::utf8::encode_utf8_valid_utf8, vstd::utf8::is_char_boundary_start_end_of_seq;

/// An 8-bit sRGB colour.
#[derive(Clone, Copy, PartialEq, Eq, Debug, Structural)]
pub struct Srgb {
    pub r: u8,
    pub g: u8,
    pub b: u8,
}

/// `format!("{:?}", s)`: a string as Rust writes it for debugging.
pub uninterp spec fn spec_debug_str(s: Seq<char>) -> Seq<char>;

/// `format!("{:?}", s)`: `s` quoted, with std's `Debug` escapes. The
/// result depends on `s` alone and is named `spec_debug_str`.
#[verifier::external_body]
fn debug_str(s: &str) -> (r: String)
    ensures
        r@ == spec_debug_str(s@),
{
    format!("{:?}", s)
}

/// A hex digit character's value (either case).
pub open spec fn hex_char_value(c: char) -> Option<int> {
    if (c as u32) < 128 {
        hex_value(c as u32 as u8)
    } else {
        None
    }
}

/// Without every leading `#`.
pub open spec fn strip_hashes(s: Seq<char>) -> Seq<char>
    decreases s.len(),
{
    if s.len() > 0 && s[0] == '#' {
        strip_hashes(s.drop_first())
    } else {
        s
    }
}

/// Two hex digits as a byte.
pub open spec fn byte_of(h: Seq<char>, i: int) -> u8 {
    (hex_char_value(h[i])->0 * 16 + hex_char_value(h[i + 1])->0) as u8
}

/// What `Srgb::parse` makes of `s`: after trimming and dropping the
/// leading `#`s, exactly six hex digits.
pub open spec fn spec_srgb_parse(s: Seq<char>) -> Result<Srgb, Seq<char>> {
    let h = strip_hashes(trimmed(s));
    if h.len() == 6 && forall|k: int| 0 <= k < 6 ==> (#[trigger] hex_char_value(h[k])) is Some {
        Ok(Srgb { r: byte_of(h, 0), g: byte_of(h, 2), b: byte_of(h, 4) })
    } else {
        Err("bad hex colour "@ + spec_debug_str(s))
    }
}

fn hex_digit_value(c: char) -> (r: Option<u8>)
    ensures
        r is None <==> hex_char_value(c) is None,
        r matches Some(v) ==> v == hex_char_value(c)->0 && v < 16,
{
    if c >= '0' && c <= '9' {
        Some((c as u32 - 48) as u8)
    } else if c >= 'a' && c <= 'f' {
        Some((c as u32 - 87) as u8)
    } else if c >= 'A' && c <= 'F' {
        Some((c as u32 - 55) as u8)
    } else {
        None
    }
}

impl Srgb {
    #[verifier::rlimit(50)]
    pub fn parse(s: &str) -> (r: Result<Self, String>)
        ensures
            match r {
                Ok(c) => spec_srgb_parse(s@) == Ok::<Srgb, Seq<char>>(c),
                Err(e) => spec_srgb_parse(s@) == Err::<Srgb, Seq<char>>(e@),
            },
    {
        let v = chars_of(s);
        let n = v.len();
        let (lo, hi) = trim_range(&v, 0, n);
        assert(v@.subrange(0, n as int) =~= v@);
        let mut a = lo;
        while a < hi && v[a] == '#'
            invariant
                lo <= a <= hi <= v@.len(),
                strip_hashes(trimmed(s@)) == strip_hashes(v@.subrange(a as int, hi as int)),
            decreases hi - a,
        {
            assert(v@.subrange(a as int, hi as int).drop_first() =~= v@.subrange(a + 1, hi as int));
            a += 1;
        }
        let ghost h = v@.subrange(a as int, hi as int);
        assert(strip_hashes(h) == h);
        if hi - a == 6 {
            let d0 = hex_digit_value(v[a]);
            let d1 = hex_digit_value(v[a + 1]);
            let d2 = hex_digit_value(v[a + 2]);
            let d3 = hex_digit_value(v[a + 3]);
            let d4 = hex_digit_value(v[a + 4]);
            let d5 = hex_digit_value(v[a + 5]);
            match (d0, d1, d2, d3, d4, d5) {
                (Some(x0), Some(x1), Some(x2), Some(x3), Some(x4), Some(x5)) => {
                    assert forall|k: int| 0 <= k < 6 implies (#[trigger] hex_char_value(h[k])) is Some by {
                        assert(h[k] == v@[a + k]);
                    }
                    return Ok(Srgb { r: x0 * 16 + x1, g: x2 * 16 + x3, b: x4 * 16 + x5 });
                },
                _ => {
                    assert(!(forall|k: int| 0 <= k < 6 ==> (#[trigger] hex_char_value(h[k])) is Some)) by {
                        assert(h[0] == v@[a as int]);
                        assert(h[1] == v@[a + 1]);
                        assert(h[2] == v@[a + 2]);
                        assert(h[3] == v@[a + 3]);
                        assert(h[4] == v@[a + 4]);
                        assert(h[5] == v@[a + 5]);
                    }
                },
            }
        }
        let mut e = String::new();
        push_str(&mut e, "bad hex colour ");
        let d = debug_str(s);
        push_str(&mut e, d.as_str());
        Err(e)
    }

    /// `#rrggbb`, lowercase.
    pub fn hex(self) -> (r: String)
        ensures
            sbytes(r) == seq![35u8] + hex_bytes(seq![self.r, self.g, self.b]),
    {
        let mut out = String::new();
        proof {
            reveal_strlit("#");
            assert(is_ascii_chars("#"@));
            vstd::utf8::is_ascii_chars_encode_utf8("#"@);
            assert("#".spec_bytes() =~= seq![35u8]);
        }
        push_str(&mut out, "#");
        let digits = hex_encode(&[self.r, self.g, self.b]);
        push_str(&mut out, digits.as_str());
        out
    }
}

/// The slot names, `base00` to `base0F`.
pub const SLOTS: [&'static str; 16] = [
    "base00",
    "base01",
    "base02",
    "base03",
    "base04",
    "base05",
    "base06",
    "base07",
    "base08",
    "base09",
    "base0A",
    "base0B",
    "base0C",
    "base0D",
    "base0E",
    "base0F",
];

/// The name of slot `i`: `base0` and one uppercase hex digit.
pub open spec fn slot_name(i: int) -> Seq<char> {
    seq!['b', 'a', 's', 'e', '0', if i < 10 {
        (48 + i) as char
    } else {
        (55 + i) as char
    }]
}

proof fn lemma_slots()
    ensures
        forall|i: int| 0 <= i < 16 ==> (#[trigger] SLOTS@[i])@ == slot_name(i),
{
    reveal_strlit("base00");
    reveal_strlit("base01");
    reveal_strlit("base02");
    reveal_strlit("base03");
    reveal_strlit("base04");
    reveal_strlit("base05");
    reveal_strlit("base06");
    reveal_strlit("base07");
    reveal_strlit("base08");
    reveal_strlit("base09");
    reveal_strlit("base0A");
    reveal_strlit("base0B");
    reveal_strlit("base0C");
    reveal_strlit("base0D");
    reveal_strlit("base0E");
    reveal_strlit("base0F");
    assert forall|i: int| 0 <= i < 16 implies (#[trigger] SLOTS@[i])@ == slot_name(i) by {
        if i == 0 {
            assert("base00"@ =~= slot_name(0));
        } else if i == 1 {
            assert("base01"@ =~= slot_name(1));
        } else if i == 2 {
            assert("base02"@ =~= slot_name(2));
        } else if i == 3 {
            assert("base03"@ =~= slot_name(3));
        } else if i == 4 {
            assert("base04"@ =~= slot_name(4));
        } else if i == 5 {
            assert("base05"@ =~= slot_name(5));
        } else if i == 6 {
            assert("base06"@ =~= slot_name(6));
        } else if i == 7 {
            assert("base07"@ =~= slot_name(7));
        } else if i == 8 {
            assert("base08"@ =~= slot_name(8));
        } else if i == 9 {
            assert("base09"@ =~= slot_name(9));
        } else if i == 10 {
            assert("base0A"@ =~= slot_name(10));
        } else if i == 11 {
            assert("base0B"@ =~= slot_name(11));
        } else if i == 12 {
            assert("base0C"@ =~= slot_name(12));
        } else if i == 13 {
            assert("base0D"@ =~= slot_name(13));
        } else if i == 14 {
            assert("base0E"@ =~= slot_name(14));
        } else {
            assert("base0F"@ =~= slot_name(15));
        }
    }
}

/// The slot a key names, if it names one.
pub open spec fn slot_index(key: Seq<char>) -> Option<int> {
    if exists|i: int| 0 <= i < 16 && slot_name(i) == key {
        Some(choose|i: int| 0 <= i < 16 && slot_name(i) == key)
    } else {
        None
    }
}

proof fn lemma_slot_names_distinct(i: int, j: int)
    requires
        0 <= i < 16,
        0 <= j < 16,
        slot_name(i) == slot_name(j),
    ensures
        i == j,
{
    assert(slot_name(i)[5] == slot_name(j)[5]);
}

/// The position of `key` among the slot names.
fn slot_position(key: &str) -> (r: Option<usize>)
    ensures
        r matches Some(i) ==> slot_index(key@) == Some(i as int) && i < 16,
        r is None ==> slot_index(key@) is None,
{
    proof {
        lemma_slots();
    }
    let mut i: usize = 0;
    while i < 16
        invariant
            i <= 16,
            forall|k: int| 0 <= k < 16 ==> (#[trigger] SLOTS@[k])@ == slot_name(k),
            forall|k: int| 0 <= k < i ==> slot_name(k) != key@,
        decreases 16 - i,
    {
        if str_eq(SLOTS[i], key) {
            proof {
                assert(slot_name(i as int) == key@);
                let c = choose|c: int| 0 <= c < 16 && slot_name(c) == key@;
                lemma_slot_names_distinct(c, i as int);
            }
            return Some(i);
        }
        i += 1;
    }
    None
}

/// A parsed scheme.
#[derive(Clone, Debug)]
pub struct Scheme {
    pub slug: String,
    pub name: String,
    pub author: String,
    pub dark: bool,
    pub palette: [Srgb; 16],
}

/// A scheme as plain values.
pub struct SchemeView {
    pub slug: Seq<char>,
    pub name: Seq<char>,
    pub author: Seq<char>,
    pub dark: bool,
    pub palette: Seq<Srgb>,
}

pub open spec fn scheme_view(s: Scheme) -> SchemeView {
    SchemeView { slug: s.slug@, name: s.name@, author: s.author@, dark: s.dark, palette: s.palette@ }
}

/// The first index of `" #"` in `s`, or its length.
pub open spec fn comment_at(s: Seq<char>, i: int) -> int
    decreases s.len() - i,
{
    if i < 0 || i + 1 >= s.len() {
        s.len() as int
    } else if s[i] == ' ' && s[i + 1] == '#' {
        i
    } else {
        comment_at(s, i + 1)
    }
}

/// A YAML scalar without an inline `# comment` (a `#` after a space;
/// hex colours start with `#`) and without surrounding quotes.
pub open spec fn spec_unquote(rest: Seq<char>) -> Seq<char> {
    let v1 = trimmed(rest);
    let c = comment_at(v1, 0);
    let v2 = if c < v1.len() {
        trimmed_end(v1.take(c))
    } else {
        v1
    };
    let v3 = if v2.len() >= 2 && v2[0] == '"' && v2.last() == '"' {
        v2.subrange(1, v2.len() - 1)
    } else {
        v2
    };
    trimmed(v3)
}

proof fn lemma_comment_at(s: Seq<char>, i: int)
    requires
        0 <= i <= s.len(),
    ensures
        i <= comment_at(s, i) <= s.len(),
    decreases s.len() - i,
{
    if i + 1 < s.len() && !(s[i] == ' ' && s[i + 1] == '#') {
        lemma_comment_at(s, i + 1);
    }
}

/// `unquote` on `v[a..b]`: the result as a range of `v`.
fn unquote_range(v: &Vec<char>, a: usize, b: usize) -> (r: (usize, usize))
    requires
        a <= b <= v@.len(),
    ensures
        a <= r.0 <= r.1 <= b,
        v@.subrange(r.0 as int, r.1 as int) == spec_unquote(v@.subrange(a as int, b as int)),
{
    let ghost rest = v@.subrange(a as int, b as int);
    let (lo, hi) = trim_range(v, a, b);
    let ghost v1 = v@.subrange(lo as int, hi as int);
    let mut c = lo;
    while c < hi && c + 1 < hi && !(v[c] == ' ' && v[c + 1] == '#')
        invariant
            lo <= c <= hi <= v@.len(),
            v1 == v@.subrange(lo as int, hi as int),
            comment_at(v1, 0) == comment_at(v1, c - lo),
        decreases hi - c,
    {
        c += 1;
    }
    proof {
        lemma_comment_at(v1, 0);
        if !(c < hi && c + 1 < hi) {
            assert(comment_at(v1, c - lo) == v1.len());
        }
    }
    let mut e = hi;
    if c < hi && c + 1 < hi {
        assert(comment_at(v1, c - lo) == c - lo);
        e = trim_end_range(v, lo, c);
        assert(v1.take(c - lo) =~= v@.subrange(lo as int, c as int));
    }
    let ghost v2 = v@.subrange(lo as int, e as int);
    let mut s = lo;
    if e - lo >= 2 && v[lo] == '"' && v[e - 1] == '"' {
        s = lo + 1;
        e = e - 1;
        assert(v2.subrange(1, v2.len() - 1) =~= v@.subrange(s as int, e as int));
    }
    let (x, y) = trim_range(v, s, e);
    (x, y)
}

/// A meaningful line of a scheme file: whether it was indented, its
/// key, and its value.
pub open spec fn line_entry(raw: Seq<char>) -> Option<(bool, Seq<char>, Seq<char>)> {
    let l1 = trimmed_end(raw);
    let indented = l1.len() > 0 && l1[0] == ' ';
    let l = trimmed(l1);
    if l.len() == 0 || l[0] == '#' {
        None
    } else {
        let c = colon_at(l, 0);
        if c >= l.len() {
            None
        } else {
            let value = spec_unquote(l.skip(c + 1));
            if value.len() == 0 {
                None
            } else {
                Some((indented, trimmed(l.take(c)), value))
            }
        }
    }
}

/// The index of the first `:` from `i`, or the length.
pub open spec fn colon_at(s: Seq<char>, i: int) -> int
    decreases s.len() - i,
{
    if i < 0 || i >= s.len() {
        s.len() as int
    } else if s[i] == ':' {
        i
    } else {
        colon_at(s, i + 1)
    }
}

proof fn lemma_colon_at(s: Seq<char>, i: int)
    requires
        0 <= i <= s.len(),
    ensures
        i <= colon_at(s, i) <= s.len(),
    decreases s.len() - i,
{
    if i < s.len() && s[i] != ':' {
        lemma_colon_at(s, i + 1);
    }
}

/// What the scheme's lines have said so far.
pub struct SchemeAcc {
    pub name: Seq<char>,
    pub author: Seq<char>,
    pub variant: Seq<char>,
    pub palette: Seq<Option<Srgb>>,
}

/// One entry applied: the three named scalars at the top level, a slot
/// colour anywhere, everything else ignored.
pub open spec fn apply_entry(acc: SchemeAcc, e: (bool, Seq<char>, Seq<char>)) -> Result<SchemeAcc, Seq<char>> {
    let (indented, key, value) = e;
    if key == "name"@ && !indented {
        Ok(SchemeAcc { name: value, ..acc })
    } else if key == "author"@ && !indented {
        Ok(SchemeAcc { author: value, ..acc })
    } else if key == "variant"@ && !indented {
        Ok(SchemeAcc { variant: value, ..acc })
    } else {
        match slot_index(key) {
            None => Ok(acc),
            Some(i) => match spec_srgb_parse(value) {
                Ok(c) => Ok(SchemeAcc { palette: acc.palette.update(i, Some(c)), ..acc }),
                Err(m) => Err(m),
            },
        }
    }
}

/// The lines, read in order; the first bad colour stops the read.
pub open spec fn read_lines(lines: Seq<Seq<char>>) -> Result<SchemeAcc, Seq<char>>
    decreases lines.len(),
{
    if lines.len() == 0 {
        Ok(
            SchemeAcc {
                name: seq![],
                author: seq![],
                variant: seq![],
                palette: Seq::new(16, |i: int| None::<Srgb>),
            },
        )
    } else {
        match read_lines(lines.drop_last()) {
            Err(m) => Err(m),
            Ok(acc) => match line_entry(lines.last()) {
                None => Ok(acc),
                Some(e) => apply_entry(acc, e),
            },
        }
    }
}

/// The first slot with no colour, from `i` on.
pub open spec fn first_missing(p: Seq<Option<Srgb>>, i: int) -> int
    decreases 16 - i,
{
    if i < 0 || i >= 16 {
        16
    } else if p[i] is None {
        i
    } else {
        first_missing(p, i + 1)
    }
}

/// The lines of a scheme file, as `str::lines` cuts them.
pub open spec fn yaml_lines(t: Seq<u8>) -> Seq<Seq<char>> {
    let rs = line_ranges(t, 0, t.len() as int);
    Seq::new(rs.len(), |i: int| decode_utf8(t.subrange(rs[i].0, rs[i].1)))
}

/// What `Scheme::parse` makes of a scheme file.
pub open spec fn spec_scheme_parse(slug: Seq<char>, yaml: Seq<u8>) -> Result<SchemeView, Seq<char>> {
    match read_lines(yaml_lines(yaml)) {
        Err(m) => Err(m),
        Ok(acc) => if acc.name.len() == 0 {
            Err(slug + ": no name"@)
        } else if acc.variant != "dark"@ && acc.variant != "light"@ {
            Err(slug + ": bad variant "@ + spec_debug_str(acc.variant))
        } else if first_missing(acc.palette, 0) < 16 {
            Err(slug + ": missing "@ + slot_name(first_missing(acc.palette, 0)))
        } else {
            Ok(
                SchemeView {
                    slug,
                    name: acc.name,
                    author: acc.author,
                    dark: acc.variant == "dark"@,
                    palette: Seq::new(16, |i: int| acc.palette[i]->0),
                },
            )
        },
    }
}

proof fn lemma_read_error_sticks(lines: Seq<Seq<char>>, j: int, m: Seq<char>)
    requires
        0 <= j <= lines.len(),
        read_lines(lines.take(j)) == Err::<SchemeAcc, Seq<char>>(m),
    ensures
        read_lines(lines) == Err::<SchemeAcc, Seq<char>>(m),
    decreases lines.len() - j,
{
    if j == lines.len() {
        assert(lines.take(j) =~= lines);
    } else {
        assert(lines.take(j + 1).drop_last() =~= lines.take(j));
        lemma_read_error_sticks(lines, j + 1, m);
    }
}

/// `line_entry`, computed.
fn entry_of(line: &str) -> (r: Option<(bool, String, String)>)
    ensures
        r is None <==> line_entry(line@) is None,
        r matches Some((ind, k, val)) ==> line_entry(line@) == Some((ind, k@, val@)),
{
    let v = chars_of(line);
    let n = v.len();
    let e1 = trim_end_range(&v, 0, n);
    assert(v@.subrange(0, n as int) =~= line@);
    let indented = e1 > 0 && v[0] == ' ';
    let (lo, hi) = trim_range(&v, 0, e1);
    let ghost l = v@.subrange(lo as int, hi as int);
    if lo == hi || v[lo] == '#' {
        return None;
    }
    let mut c = lo;
    while c < hi && v[c] != ':'
        invariant
            lo <= c <= hi <= v@.len(),
            l == v@.subrange(lo as int, hi as int),
            colon_at(l, 0) == colon_at(l, c - lo),
        decreases hi - c,
    {
        c += 1;
    }
    proof {
        lemma_colon_at(l, 0);
    }
    if c >= hi {
        return None;
    }
    let (ka, kb) = trim_range(&v, lo, c);
    let (va, vb) = unquote_range(&v, c + 1, hi);
    assert(l.take(c - lo) =~= v@.subrange(lo as int, c as int));
    assert(l.skip(c - lo + 1) =~= v@.subrange(c + 1, hi as int));
    if va == vb {
        return None;
    }
    Some((indented, string_of(&v, ka, kb), string_of(&v, va, vb)))
}

/// The accumulated read, as plain values.
pub open spec fn acc_view(name: String, author: String, variant: String, palette: Seq<Option<Srgb>>) -> SchemeAcc {
    SchemeAcc { name: name@, author: author@, variant: variant@, palette }
}

impl Scheme {
    /// Reads the subset of YAML these files actually use: three quoted
    /// scalars and sixteen `baseXX: "#rrggbb"` entries, with trailing
    /// `#` comments (several schemes annotate their slots) and either
    /// quoting style.
    pub fn parse(slug: &str, yaml: &str) -> (r: Result<Self, String>)
        ensures
            match r {
                Ok(s) => spec_scheme_parse(slug@, yaml.spec_bytes()) == Ok::<SchemeView, Seq<char>>(scheme_view(s)),
                Err(e) => spec_scheme_parse(slug@, yaml.spec_bytes()) == Err::<SchemeView, Seq<char>>(e@),
            },
    {
        let tb = yaml.as_bytes();
        let ghost t = tb@;
        let n = tb.len();
        let ranges = lines_of(tb, 0, n);
        let ghost rs = ranges_view(ranges@);
        let ghost lines = yaml_lines(t);
        let mut name = String::new();
        let mut author = String::new();
        let mut variant = String::new();
        let mut palette: Vec<Option<Srgb>> = Vec::new();
        let mut p: usize = 0;
        while p < 16
            invariant
                p <= 16,
                palette@ == Seq::new(p as nat, |i: int| None::<Srgb>),
            decreases 16 - p,
        {
            palette.push(None);
            assert(palette@ =~= Seq::new((p + 1) as nat, |i: int| None::<Srgb>));
            p += 1;
        }
        assert(lines.take(0) =~= Seq::<Seq<char>>::empty());
        assert(name@ =~= Seq::<char>::empty());
        assert(author@ =~= Seq::<char>::empty());
        assert(variant@ =~= Seq::<char>::empty());
        let mut k: usize = 0;
        while k < ranges.len()
            invariant
                k <= ranges@.len(),
                rs == ranges_view(ranges@),
                rs == line_ranges(t, 0, n as int),
                t == yaml.spec_bytes(),
                tb@ == t,
                n == t.len(),
                lines == yaml_lines(t),
                lines.len() == rs.len(),
                forall|i: int| 0 <= i < rs.len() ==> line_range_ok(t, 0, n as int, #[trigger] rs[i]),
                palette@.len() == 16,
                read_lines(lines.take(k as int)) == Ok::<SchemeAcc, Seq<char>>(acc_view(name, author, variant, palette@)),
            decreases ranges@.len() - k,
        {
            let (a, b) = ranges[k];
            assert(rs[k as int] == (a as int, b as int));
            assert(line_range_ok(t, 0, n as int, rs[k as int]));
            proof {
                if a > 0 {
                    crate::text::lemma_ascii_boundary(t, a - 1);
                }
                if b < n {
                    crate::text::lemma_ascii_boundary(t, b as int);
                }
            }
            let line = substr(yaml, a, b);
            proof {
                encode_utf8_decode_utf8(line@);
                assert(lines[k as int] == line@);
                assert(lines.take(k + 1).drop_last() =~= lines.take(k as int));
                assert(lines.take(k + 1).last() == line@);
            }
            match entry_of(line) {
                None => {},
                Some((indented, key, value)) => {
                    if str_eq(key.as_str(), "name") && !indented {
                        name = value;
                    } else if str_eq(key.as_str(), "author") && !indented {
                        author = value;
                    } else if str_eq(key.as_str(), "variant") && !indented {
                        variant = value;
                    } else {
                        match slot_position(key.as_str()) {
                            None => {},
                            Some(i) => {
                                match Srgb::parse(value.as_str()) {
                                    Ok(c) => {
                                        palette.set(i, Some(c));
                                    },
                                    Err(m) => {
                                        proof {
                                            lemma_read_error_sticks(lines, k + 1, m@);
                                        }
                                        return Err(m);
                                    },
                                }
                            },
                        }
                    }
                },
            }
            k += 1;
        }
        assert(lines.take(k as int) =~= lines);
        if name.as_str().is_empty() {
            let mut e = String::new();
            push_str(&mut e, slug);
            push_str(&mut e, ": no name");
            return Err(e);
        }
        let dark = if str_eq(variant.as_str(), "dark") {
            true
        } else if str_eq(variant.as_str(), "light") {
            false
        } else {
            let mut e = String::new();
            push_str(&mut e, slug);
            push_str(&mut e, ": bad variant ");
            let d = debug_str(variant.as_str());
            push_str(&mut e, d.as_str());
            return Err(e);
        };
        let mut q: usize = 0;
        while q < 16
            invariant
                q <= 16,
                palette@.len() == 16,
                first_missing(palette@, 0) == first_missing(palette@, q as int),
                forall|i: int| 0 <= i < q ==> (#[trigger] palette@[i]) is Some,
                read_lines(yaml_lines(yaml.spec_bytes())) == Ok::<SchemeAcc, Seq<char>>(acc_view(name, author, variant, palette@)),
                name@.len() != 0,
                variant@ == "dark"@ || variant@ == "light"@,
                dark == (variant@ == "dark"@),
            decreases 16 - q,
        {
            if palette[q].is_none() {
                proof {
                    lemma_slots();
                }
                let sl = SLOTS[q];
                assert(sl@ == slot_name(q as int));
                assert(first_missing(palette@, q as int) == q);
                let mut e = String::new();
                push_str(&mut e, slug);
                push_str(&mut e, ": missing ");
                push_str(&mut e, sl);
                return Err(e);
            }
            q += 1;
        }
        let colours = [
            palette[0].unwrap(),
            palette[1].unwrap(),
            palette[2].unwrap(),
            palette[3].unwrap(),
            palette[4].unwrap(),
            palette[5].unwrap(),
            palette[6].unwrap(),
            palette[7].unwrap(),
            palette[8].unwrap(),
            palette[9].unwrap(),
            palette[10].unwrap(),
            palette[11].unwrap(),
            palette[12].unwrap(),
            palette[13].unwrap(),
            palette[14].unwrap(),
            palette[15].unwrap(),
        ];
        let mut s = String::new();
        push_str(&mut s, slug);
        let r = Scheme { slug: s, name, author, dark, palette: colours };
        assert(r.palette@ =~= Seq::new(16, |i: int| palette@[i]->0));
        Ok(r)
    }

    /// The colour in the slot named `name`.
    pub fn slot(&self, name: &str) -> (r: Srgb)
        requires
            slot_index(name@) is Some,
        ensures
            r == self.palette@[slot_index(name@)->0],
    {
        match slot_position(name) {
            Some(i) => self.palette[i],
            None => self.palette[0],
        }
    }
}

/// The colours of one theme file.
#[derive(Clone, Copy, Debug)]
pub struct Tokens {
    pub bg: Srgb,
    pub page_bg: Srgb,
    pub panel_bg: Srgb,
    pub floating_bg: Srgb,
    pub hover_bg: Srgb,
    pub selected_bg: Srgb,
    pub code_bg: Srgb,
    pub border: Srgb,
    pub fg: Srgb,
    pub fg_strong: Srgb,
    pub fg_muted: Srgb,
    pub code_fg: Srgb,
    pub accent: Srgb,
    pub link: Srgb,
    pub find_match_bg: Srgb,
    pub find_active_bg: Srgb,
    pub shadow: Srgb,
    pub shadow_alpha: u8,
    pub diff_added_bg: Srgb,
    pub diff_added_fg: Srgb,
    pub diff_deleted_bg: Srgb,
    pub diff_deleted_fg: Srgb,
    pub syntax: [Srgb; 10],
}

pub const SYNTAX_KEYS: [&'static str; 10] = [
    "keyword",
    "function",
    "type",
    "string",
    "comment",
    "constant",
    "property",
    "operator",
    "tag",
    "attribute",
];

/// Which base16 slot a colour came from (the first slot holding it), or
/// `derived` when the mapping stepped it from the ground.
pub open spec fn spec_provenance(palette: Seq<Srgb>, c: Srgb) -> Seq<char> {
    if exists|i: int| 0 <= i < 16 && palette[i] == c {
        slot_name(choose|i: int| 0 <= i < 16 && palette[i] == c && forall|j: int| 0 <= j < i ==> palette[j] != c)
    } else {
        "derived"@
    }
}

/// Which base16 slot a colour came from, or `derived` when the mapping
/// stepped it from the ground. Computed by comparison rather than
/// recorded as the mapping runs, so the annotation cannot disagree with
/// the value beside it.
fn provenance(scheme: &Scheme, c: Srgb) -> (r: &'static str)
    ensures
        r@ == spec_provenance(scheme.palette@, c),
{
    proof {
        lemma_slots();
    }
    let mut i: usize = 0;
    while i < 16
        invariant
            i <= 16,
            forall|k: int| 0 <= k < 16 ==> (#[trigger] SLOTS@[k])@ == slot_name(k),
            forall|j: int| 0 <= j < i ==> scheme.palette@[j] != c,
        decreases 16 - i,
    {
        if scheme.palette[i] == c {
            let sl = SLOTS[i];
            proof {
                let w = choose|w: int| 0 <= w < 16 && scheme.palette@[w] == c && forall|j: int| 0 <= j < w ==> scheme.palette@[j] != c;
                assert(scheme.palette@[i as int] == c);
                if w < i {
                } else if w > i {
                    assert(scheme.palette@[i as int] != c);
                }
                assert(w == i);
            }
            return sl;
        }
        i += 1;
    }
    "derived"
}

/// `#rrggbb`, as characters.
pub open spec fn colour_text(c: Srgb) -> Seq<char> {
    decode_utf8(seq![35u8] + hex_bytes(seq![c.r, c.g, c.b]))
}

/// Parsing a colour's `#rrggbb` form gives the colour back.
pub proof fn lemma_parse_hex_round_trip(c: Srgb)
    ensures
        spec_srgb_parse(colour_text(c)) == Ok::<Srgb, Seq<char>>(c),
{
    let rgb = seq![c.r, c.g, c.b];
    let hb = hex_bytes(rgb);
    crate::bookmarks::lemma_hex_round_trip(rgb);
    let bytes = seq![35u8] + hb;
    assert(spec_hex_decode(hb) == Some(rgb));
    assert(hb.len() == 6);
    assert forall|i: int| 0 <= i < 6 implies (#[trigger] hex_value(hb[i])) is Some && hb[i] < 128 by {
        assert(hex_value(hb[i]) is Some);
    }
    let cs = Seq::new(7, |i: int| bytes[i] as char);
    assert forall|i: int| 0 <= i < 7 implies bytes[i] < 128 by {
        if i > 0 {
            assert(bytes[i] == hb[i - 1]);
        }
    }
    assert(is_ascii_chars(cs));
    is_ascii_chars_encode_utf8(cs);
    assert(encode_utf8(cs) =~= bytes);
    encode_utf8_decode_utf8(cs);
    assert(colour_text(c) == cs);
    assert(cs[0] == '#');
    crate::text::lemma_ws_lead(cs, 0);
    assert(!crate::text::is_ws(cs[6])) by {
        assert(hex_value(hb[5]) is Some);
        assert(cs[6] as u32 == hb[5]);
    }
    crate::text::lemma_ws_trail(cs, 7);
    assert(cs.subrange(0, 7) =~= cs);
    assert(trimmed(cs) == cs);
    let h = cs.drop_first();
    assert(h[0] as u32 == hb[0]);
    assert(h[0] != '#');
    assert(strip_hashes(h) == h);
    assert(strip_hashes(cs) == h);
    assert forall|k: int| 0 <= k < 6 implies hex_char_value(#[trigger] h[k]) == hex_value(hb[k]) by {
        assert(h[k] == cs[k + 1]);
        assert(bytes[k + 1] == hb[k]);
    }
    assert(byte_of(h, 0) == c.r);
    assert(byte_of(h, 2) == c.g);
    assert(byte_of(h, 4) == c.b);
}

/// `s` widened to `w` characters with spaces (`{:<w}`).
pub open spec fn pad_to(s: Seq<char>, w: int) -> Seq<char> {
    if s.len() < w {
        s + Seq::new((w - s.len()) as nat, |i: int| ' ')
    } else {
        s
    }
}

/// One `key = "value"` line, its note aligned in a column.
pub open spec fn toml_line(key: Seq<char>, value: Seq<char>, note: Seq<char>) -> Seq<char> {
    pad_to(key + " = \""@ + value + "\""@, 30) + "# "@ + note + "\n"@
}

pub open spec fn colour_line(key: Seq<char>, palette: Seq<Srgb>, c: Srgb) -> Seq<char> {
    toml_line(key, colour_text(c), spec_provenance(palette, c))
}

/// The head of a theme file: where it came from, its name and its
/// appearance.
pub open spec fn toml_head(s: SchemeView) -> Seq<char> {
    HEAD@ + s.name + " by "@ + s.author + SOURCE@ + s.slug + SOURCE_END@ + "name = \""@ + s.name
        + "\"\n"@ + "appearance = \""@ + (if s.dark {
        "dark"@
    } else {
        "light"@
    }) + "\"\n\n[colors]\n"@
}

pub const HEAD: &'static str = "# Generated from base16 by `cargo run --example import_base16`.\n# Do not edit by hand: regenerate instead, and let the contrast\n# guards in src/theme.rs decide whether the result ships.\n#\n# Scheme: ";

pub const SOURCE: &'static str = "\n# Source: tinted-theming/schemes (MIT), vendored at\n# assets/base16/";

pub const SOURCE_END: &'static str = ".yaml -- see assets/base16/README.md.\n#\n# Each colour is tagged with the slot it came from, or `derived`\n# where the mapping took its own step from the ground.\n\n";

/// The `[colors]` lines.
pub open spec fn colour_rows(p: Seq<Srgb>, t: Tokens) -> Seq<char> {
    surface_rows(p, t) + ink_rows(p, t)
}

/// The shadow line: the colour with its alpha byte, always derived.
pub open spec fn shadow_row(t: Tokens) -> Seq<char> {
    toml_line("shadow"@, colour_text(t.shadow) + decode_utf8(hex_bytes(seq![t.shadow_alpha])), "derived, translucent"@)
}

/// The diff colour lines.
pub open spec fn diff_rows(p: Seq<Srgb>, t: Tokens) -> Seq<char> {
    colour_line("diff_added_bg"@, p, t.diff_added_bg)
        + colour_line("diff_added_fg"@, p, t.diff_added_fg)
        + colour_line("diff_deleted_bg"@, p, t.diff_deleted_bg)
        + colour_line("diff_deleted_fg"@, p, t.diff_deleted_fg)
}

/// The first `k` `[syntax]` lines.
pub open spec fn syntax_rows(p: Seq<Srgb>, t: Tokens, k: int) -> Seq<char>
    decreases k,
{
    if k <= 0 {
        seq![]
    } else {
        syntax_rows(p, t, k - 1) + colour_line(SYNTAX_KEYS@[k - 1]@, p, t.syntax@[k - 1])
    }
}

/// One theme file for `scheme` with the colours `t`.
pub open spec fn spec_render_toml(s: SchemeView, t: Tokens) -> Seq<char> {
    toml_head(s) + colour_rows(s.palette, t) + shadow_row(t) + diff_rows(s.palette, t) + "\n[syntax]\n"@
        + syntax_rows(s.palette, t, 10)
}

/// Appends one `key = "value"` line with its note.
fn push_line(out: &mut String, key: &str, value: &str, note: &str)
    ensures
        final(out)@ == old(out)@ + toml_line(key@, value@, note@),
{
    let mut a = String::new();
    push_str(&mut a, key);
    push_str(&mut a, " = \"");
    push_str(&mut a, value);
    push_str(&mut a, "\"");
    let ghost av = a@;
    let n = chars_of(a.as_str()).len();
    let mut k = n;
    proof {
        reveal_strlit(" ");
    }
    while k < 30
        invariant
            n <= k <= 30 || (n > 30 && k == n),
            n == av.len(),
            a@ == av + Seq::new((k - n) as nat, |i: int| ' '),
        decreases 30 - k,
    {
        push_char(&mut a, ' ');
        assert(a@ =~= av + Seq::new((k + 1 - n) as nat, |i: int| ' '));
        k += 1;
    }
    assert(a@ =~= pad_to(av, 30));
    push_str(out, a.as_str());
    push_str(out, "# ");
    push_str(out, note);
    push_str(out, "\n");
}

/// Appends one colour line, tagged with where the colour came from.
fn push_colour(out: &mut String, key: &str, scheme: &Scheme, c: Srgb)
    ensures
        final(out)@ == old(out)@ + colour_line(key@, scheme.palette@, c),
{
    let h = c.hex();
    proof {
        encode_utf8_decode_utf8(h@);
    }
    push_line(out, key, h.as_str(), provenance(scheme, c));
}

/// The comment block of the theme file.
pub open spec fn toml_banner(s: SchemeView) -> Seq<char> {
    HEAD@ + s.name + " by "@ + s.author + SOURCE@ + s.slug + SOURCE_END@
}

/// The name and appearance lines, and the `[colors]` header.
pub open spec fn toml_identity(s: SchemeView) -> Seq<char> {
    "name = \""@ + s.name + "\"\n"@ + "appearance = \""@ + (if s.dark {
        "dark"@
    } else {
        "light"@
    }) + "\"\n\n[colors]\n"@
}

fn push_banner(out: &mut String, scheme: &Scheme)
    ensures
        final(out)@ == old(out)@ + toml_banner(scheme_view(*scheme)),
{
    let ghost start = out@;
    push_str(out, HEAD);
    push_str(out, scheme.name.as_str());
    push_str(out, " by ");
    push_str(out, scheme.author.as_str());
    push_str(out, SOURCE);
    push_str(out, scheme.slug.as_str());
    push_str(out, SOURCE_END);
    assert(out@ =~= start + toml_banner(scheme_view(*scheme)));
}

fn push_identity(out: &mut String, scheme: &Scheme)
    ensures
        final(out)@ == old(out)@ + toml_identity(scheme_view(*scheme)),
{
    let ghost start = out@;
    push_str(out, "name = \"");
    push_str(out, scheme.name.as_str());
    push_str(out, "\"\n");
    push_str(out, "appearance = \"");
    if scheme.dark {
        push_str(out, "dark");
    } else {
        push_str(out, "light");
    }
    push_str(out, "\"\n\n[colors]\n");
    assert(out@ =~= start + toml_identity(scheme_view(*scheme)));
}

fn push_head(out: &mut String, scheme: &Scheme)
    ensures
        final(out)@ == old(out)@ + toml_head(scheme_view(*scheme)),
{
    let ghost start = out@;
    push_banner(out, scheme);
    push_identity(out, scheme);
    assert(toml_head(scheme_view(*scheme)) =~= toml_banner(scheme_view(*scheme)) + toml_identity(scheme_view(*scheme)));
    assert(out@ =~= start + toml_head(scheme_view(*scheme)));
}

/// The surface colour lines.
pub open spec fn surface_rows(p: Seq<Srgb>, t: Tokens) -> Seq<char> {
    colour_line("bg"@, p, t.bg)
        + colour_line("page_bg"@, p, t.page_bg)
        + colour_line("panel_bg"@, p, t.panel_bg)
        + colour_line("floating_bg"@, p, t.floating_bg)
        + colour_line("hover_bg"@, p, t.hover_bg)
        + colour_line("selected_bg"@, p, t.selected_bg)
        + colour_line("border"@, p, t.border)
        + colour_line("code_bg"@, p, t.code_bg)
}

/// The ink colour lines.
pub open spec fn ink_rows(p: Seq<Srgb>, t: Tokens) -> Seq<char> {
    colour_line("code_fg"@, p, t.code_fg)
        + colour_line("fg"@, p, t.fg)
        + colour_line("fg_strong"@, p, t.fg_strong)
        + colour_line("fg_muted"@, p, t.fg_muted)
        + colour_line("accent"@, p, t.accent)
        + colour_line("link"@, p, t.link)
        + colour_line("find_match_bg"@, p, t.find_match_bg)
        + colour_line("find_active_bg"@, p, t.find_active_bg)
}

#[verifier::rlimit(40)]
fn push_surface_rows(out: &mut String, scheme: &Scheme, t: &Tokens)
    ensures
        final(out)@ == old(out)@ + surface_rows(scheme.palette@, *t),
{
    let ghost start = out@;
    push_colour(out, "bg", scheme, t.bg);
    push_colour(out, "page_bg", scheme, t.page_bg);
    push_colour(out, "panel_bg", scheme, t.panel_bg);
    push_colour(out, "floating_bg", scheme, t.floating_bg);
    push_colour(out, "hover_bg", scheme, t.hover_bg);
    push_colour(out, "selected_bg", scheme, t.selected_bg);
    push_colour(out, "border", scheme, t.border);
    push_colour(out, "code_bg", scheme, t.code_bg);
    assert(out@ =~= start + surface_rows(scheme.palette@, *t));
}

#[verifier::rlimit(40)]
fn push_ink_rows(out: &mut String, scheme: &Scheme, t: &Tokens)
    ensures
        final(out)@ == old(out)@ + ink_rows(scheme.palette@, *t),
{
    let ghost start = out@;
    push_colour(out, "code_fg", scheme, t.code_fg);
    push_colour(out, "fg", scheme, t.fg);
    push_colour(out, "fg_strong", scheme, t.fg_strong);
    push_colour(out, "fg_muted", scheme, t.fg_muted);
    push_colour(out, "accent", scheme, t.accent);
    push_colour(out, "link", scheme, t.link);
    push_colour(out, "find_match_bg", scheme, t.find_match_bg);
    push_colour(out, "find_active_bg", scheme, t.find_active_bg);
    assert(out@ =~= start + ink_rows(scheme.palette@, *t));
}

fn push_colour_rows(out: &mut String, scheme: &Scheme, t: &Tokens)
    ensures
        final(out)@ == old(out)@ + colour_rows(scheme.palette@, *t),
{
    let ghost start = out@;
    push_surface_rows(out, scheme, t);
    push_ink_rows(out, scheme, t);
    assert(out@ =~= start + colour_rows(scheme.palette@, *t));
}

fn push_shadow(out: &mut String, t: &Tokens)
    ensures
        final(out)@ == old(out)@ + shadow_row(*t),
{
    let sh = t.shadow.hex();
    let arr = [t.shadow_alpha];
    assert(arr@ =~= seq![t.shadow_alpha]);
    let alpha = hex_encode(&arr);
    let mut v = String::new();
    push_str(&mut v, sh.as_str());
    push_str(&mut v, alpha.as_str());
    proof {
        encode_utf8_decode_utf8(sh@);
        encode_utf8_decode_utf8(alpha@);
        assert(sh@ == colour_text(t.shadow));
        assert(alpha@ == decode_utf8(hex_bytes(seq![t.shadow_alpha])));
        assert(v@ == colour_text(t.shadow) + decode_utf8(hex_bytes(seq![t.shadow_alpha])));
    }
    push_line(out, "shadow", v.as_str(), "derived, translucent");
}

fn push_diff_rows(out: &mut String, scheme: &Scheme, t: &Tokens)
    ensures
        final(out)@ == old(out)@ + diff_rows(scheme.palette@, *t),
{
    let ghost start = out@;
    push_colour(out, "diff_added_bg", scheme, t.diff_added_bg);
    push_colour(out, "diff_added_fg", scheme, t.diff_added_fg);
    push_colour(out, "diff_deleted_bg", scheme, t.diff_deleted_bg);
    push_colour(out, "diff_deleted_fg", scheme, t.diff_deleted_fg);
    assert(out@ =~= start + diff_rows(scheme.palette@, *t));
}

/// One theme file, ready to write to `assets/themes/<slug>.toml`, for
/// `scheme` and the colours the mapping chose for it.
pub fn render_toml(scheme: &Scheme, t: &Tokens) -> (r: String)
    ensures
        r@ == spec_render_toml(scheme_view(*scheme), *t),
{
    let mut out = String::new();
    push_head(&mut out, scheme);
    push_colour_rows(&mut out, scheme, t);
    push_shadow(&mut out, t);
    push_diff_rows(&mut out, scheme, t);
    push_str(&mut out, "\n[syntax]\n");
    let ghost before_syntax = out@;
    let mut k: usize = 0;
    assert(before_syntax =~= before_syntax + syntax_rows(scheme.palette@, *t, 0));
    while k < 10
        invariant
            k <= 10,
            out@ == before_syntax + syntax_rows(scheme.palette@, *t, k as int),
        decreases 10 - k,
    {
        let key = SYNTAX_KEYS[k];
        let c = t.syntax[k];
        push_colour(&mut out, key, scheme, c);
        assert(out@ =~= before_syntax + syntax_rows(scheme.palette@, *t, k + 1));
        k += 1;
    }
    assert(out@ =~= spec_render_toml(scheme_view(*scheme), *t));
    out
}

/// The schemes converted into shipped themes, sorted.
pub const CURATED: [&'static str; 20] = [
    "ayu-dark",
    "ayu-light",
    "catppuccin-frappe",
    "catppuccin-latte",
    "catppuccin-macchiato",
    "catppuccin-mocha",
    "dracula",
    "everforest",
    "github",
    "kanagawa",
    "monokai",
    "one-light",
    "onedark",
    "rose-pine",
    "rose-pine-dawn",
    "rose-pine-moon",
    "tokyo-night-dark",
    "tokyo-night-light",
    "tokyo-night-storm",
    "zenburn",
];

} // verus!
