//! Byte-level text primitives shared by every module that edits or
//! inspects Markdown source. Offsets are UTF-8 byte offsets, the same
//! currency the editor uses everywhere; a `str` is described by its
//! bytes (`spec_bytes`), and an owned `String` by `encode_utf8(s@)`.
use vstd::prelude::*;
use vstd::utf8::*;
use vstd::string::*;

verus! {

broadcast use vstd::utf8::encode_utf8_valid_utf8, vstd::utf8::is_char_boundary_start_end_of_seq;

/// The UTF-8 bytes of an owned string.
pub open spec fn sbytes(s: String) -> Seq<u8> {
    encode_utf8(s@)
}

/// Encoding distributes over concatenation.
pub proof fn lemma_encode_concat(a: Seq<char>, b: Seq<char>)
    ensures
        encode_utf8(a + b) == encode_utf8(a) + encode_utf8(b),
    decreases a.len(),
{
    if a.len() == 0 {
        assert(a + b =~= b);
        assert(encode_utf8(a) =~= Seq::<u8>::empty());
        assert(encode_utf8(a) + encode_utf8(b) =~= encode_utf8(b));
    } else {
        lemma_encode_concat(a.drop_first(), b);
        assert((a + b).drop_first() =~= a.drop_first() + b);
        assert((a + b)[0] == a[0]);
        assert(encode_utf8(a + b) =~= encode_scalar(a[0] as u32) + encode_utf8(a.drop_first() + b));
        assert(encode_utf8(a) + encode_utf8(b) =~= encode_scalar(a[0] as u32) + (encode_utf8(
            a.drop_first(),
        ) + encode_utf8(b)));
    }
}

/// A boundary of a valid sequence is still a boundary, relative to a
/// suffix that starts at an earlier boundary.
pub proof fn lemma_boundary_in_suffix(bytes: Seq<u8>, a: int, b: int)
    requires
        valid_utf8(bytes),
        0 <= a <= b <= bytes.len(),
        is_char_boundary(bytes, a),
        is_char_boundary(bytes, b),
    ensures
        valid_utf8(bytes.subrange(a, bytes.len() as int)),
        is_char_boundary(bytes.subrange(a, bytes.len() as int), b - a),
{
    let suf = bytes.subrange(a, bytes.len() as int);
    valid_utf8_split(bytes, a);
    if b == bytes.len() {
        is_char_boundary_start_end_of_seq(suf);
        assert(suf.len() == b - a);
    } else {
        is_char_boundary_iff_not_is_continuation_byte(bytes, b);
        is_char_boundary_iff_not_is_continuation_byte(suf, b - a);
        assert(suf[b - a] == bytes[b]);
    }
}

/// A boundary of a valid sequence, below an end boundary, is still a
/// boundary of the prefix that ends there.
pub proof fn lemma_boundary_in_prefix(bytes: Seq<u8>, a: int, b: int)
    requires
        valid_utf8(bytes),
        0 <= a <= b <= bytes.len(),
        is_char_boundary(bytes, a),
        is_char_boundary(bytes, b),
    ensures
        valid_utf8(bytes.subrange(0, b)),
        is_char_boundary(bytes.subrange(0, b), a),
{
    let pre = bytes.subrange(0, b);
    valid_utf8_split(bytes, b);
    if a == b {
        is_char_boundary_start_end_of_seq(pre);
    } else {
        is_char_boundary_iff_not_is_continuation_byte(bytes, a);
        is_char_boundary_iff_not_is_continuation_byte(pre, a);
    }
}

/// Where two encodings meet is a character boundary of the whole.
pub proof fn lemma_boundary_at_join(a: Seq<char>, b: Seq<char>)
    ensures
        is_char_boundary(encode_utf8(a + b), encode_utf8(a).len() as int),
{
    lemma_encode_concat(a, b);
    let whole = encode_utf8(a + b);
    let n = encode_utf8(a).len() as int;
    if n == whole.len() {
        is_char_boundary_start_end_of_seq(whole);
    } else {
        let eb = encode_utf8(b);
        is_char_boundary_start_end_of_seq(eb);
        is_char_boundary_iff_not_is_continuation_byte(eb, 0);
        is_char_boundary_iff_not_is_continuation_byte(whole, n);
        assert(whole[n] == eb[0]);
    }
}

/// The index of the first newline in `[p, end)`, or `end`.
pub open spec fn next_nl(t: Seq<u8>, p: int, end: int) -> int
    decreases end - p,
{
    if p >= end {
        end
    } else if t[p] == 10 {
        p
    } else {
        next_nl(t, p + 1, end)
    }
}

pub proof fn lemma_next_nl(t: Seq<u8>, p: int, end: int)
    requires
        0 <= p <= end <= t.len(),
    ensures
        p <= next_nl(t, p, end) <= end,
        next_nl(t, p, end) < end ==> t[next_nl(t, p, end)] == 10,
        forall|k: int| p <= k < next_nl(t, p, end) ==> t[k] != 10,
    decreases end - p,
{
    if p < end && t[p] != 10 {
        lemma_next_nl(t, p + 1, end);
    }
}

/// The start of the line holding byte `p`: just past the last newline
/// before `p`, or 0.
pub open spec fn line_start_at(t: Seq<u8>, p: int) -> int
    decreases p,
{
    if p <= 0 {
        0
    } else if t[p - 1] == 10 {
        p
    } else {
        line_start_at(t, p - 1)
    }
}

pub proof fn lemma_line_start_at(t: Seq<u8>, p: int)
    requires
        0 <= p <= t.len(),
    ensures
        0 <= line_start_at(t, p) <= p,
        line_start_at(t, p) > 0 ==> t[line_start_at(t, p) - 1] == 10,
        forall|k: int| line_start_at(t, p) <= k < p ==> t[k] != 10,
    decreases p,
{
    if p > 0 && t[p - 1] != 10 {
        lemma_line_start_at(t, p - 1);
    }
}

/// `rfind('\n')` before `p`, plus one, or 0: where `p`'s line starts.
pub fn find_line_start(b: &[u8], p: usize) -> (r: usize)
    requires
        p <= b@.len(),
    ensures
        r == line_start_at(b@, p as int),
{
    let mut k = p;
    while k > 0 && b[k - 1] != 10u8
        invariant
            k <= p <= b@.len(),
            line_start_at(b@, p as int) == line_start_at(b@, k as int),
        decreases k,
    {
        k -= 1;
    }
    k
}

/// `find('\n')` from `p` within `[p, end)`, or `end`.
pub fn find_newline(b: &[u8], p: usize, end: usize) -> (r: usize)
    requires
        p <= end <= b@.len(),
    ensures
        r == next_nl(b@, p as int, end as int),
{
    let mut k = p;
    while k < end && b[k] != 10u8
        invariant
            p <= k <= end <= b@.len(),
            next_nl(b@, p as int, end as int) == next_nl(b@, k as int, end as int),
        decreases end - k,
    {
        k += 1;
    }
    k
}

/// Whether `pat` occurs in `t` at `at`.
pub open spec fn occurs_at(t: Seq<u8>, at: int, pat: Seq<u8>) -> bool {
    0 <= at && at + pat.len() <= t.len() && t.subrange(at, at + pat.len()) == pat
}

/// Whether the bytes `pat` occur in `t` at `at`.
pub fn bytes_at(t: &[u8], at: usize, pat: &[u8]) -> (r: bool)
    ensures
        r == occurs_at(t@, at as int, pat@),
{
    if at > t.len() || pat.len() > t.len() - at {
        return false;
    }
    let mut k: usize = 0;
    while k < pat.len()
        invariant
            k <= pat@.len(),
            at + pat@.len() <= t@.len(),
            t@.len() == t.len(),
            forall|j: int| 0 <= j < k ==> t@[at + j] == pat@[j],
        decreases pat@.len() - k,
    {
        if t[at + k] != pat[k] {
            assert(t@.subrange(at as int, at + pat@.len())[k as int] != pat@[k as int]);
            return false;
        }
        k += 1;
    }
    assert(t@.subrange(at as int, at + pat@.len()) =~= pat@);
    true
}

/// Valid UTF-8 that continues with valid UTF-8 starts a character there.
pub proof fn lemma_boundary_before_valid(bytes: Seq<u8>, i: int)
    requires
        valid_utf8(bytes),
        0 <= i <= bytes.len(),
        valid_utf8(bytes.subrange(i, bytes.len() as int)),
    ensures
        is_char_boundary(bytes, i),
{
    if i == bytes.len() {
        is_char_boundary_start_end_of_seq(bytes);
    } else {
        let q = bytes.subrange(i, bytes.len() as int);
        is_char_boundary_start_end_of_seq(q);
        is_char_boundary_iff_not_is_continuation_byte(q, 0);
        is_char_boundary_iff_not_is_continuation_byte(bytes, i);
        assert(q[0] == bytes[i]);
    }
}

/// Valid UTF-8 whose first `i` bytes are valid UTF-8 ends a character
/// there.
pub proof fn lemma_boundary_after_valid(bytes: Seq<u8>, i: int)
    requires
        valid_utf8(bytes),
        0 <= i <= bytes.len(),
        valid_utf8(bytes.subrange(0, i)),
    ensures
        is_char_boundary(bytes, i),
{
    if !valid_utf8(bytes.subrange(i, bytes.len() as int)) {
        partial_valid_partial_invalid_utf8(bytes, i);
    }
    lemma_boundary_before_valid(bytes, i);
}

/// The number of bytes `c` takes in UTF-8.
pub fn char_len(c: char) -> (r: usize)
    ensures
        r == encode_scalar(c as u32).len(),
        1 <= r <= 4,
{
    let v = c as u32;
    if v < 0x80 {
        1
    } else if v < 0x800 {
        2
    } else if v < 0x10000 {
        3
    } else {
        4
    }
}

/// The characters of `s`, in a vector.
pub fn chars_of(s: &str) -> (r: Vec<char>)
    ensures
        r@ == s@,
{
    let mut v: Vec<char> = Vec::new();
    for c in it: s.chars()
        invariant
            it.seq() == s@,
            v@ == s@.take(it.index() as int),
    {
        v.push(c);
    }
    v
}

/// The first index in `[p, end)` holding byte `x`, or `end`.
pub open spec fn next_byte(t: Seq<u8>, p: int, end: int, x: u8) -> int
    decreases end - p,
{
    if p >= end {
        end
    } else if t[p] == x {
        p
    } else {
        next_byte(t, p + 1, end, x)
    }
}

pub proof fn lemma_next_byte(t: Seq<u8>, p: int, end: int, x: u8)
    requires
        0 <= p <= end <= t.len(),
    ensures
        p <= next_byte(t, p, end, x) <= end,
        next_byte(t, p, end, x) < end ==> t[next_byte(t, p, end, x)] == x,
        forall|k: int| p <= k < next_byte(t, p, end, x) ==> t[k] != x,
    decreases end - p,
{
    if p < end && t[p] != x {
        lemma_next_byte(t, p + 1, end, x);
    }
}

/// `find(x)` within `[p, end)`: the first index holding `x`, or `end`.
pub fn find_byte(b: &[u8], p: usize, end: usize, x: u8) -> (r: usize)
    requires
        p <= end <= b@.len(),
    ensures
        r == next_byte(b@, p as int, end as int, x),
{
    let mut k = p;
    while k < end && b[k] != x
        invariant
            p <= k <= end <= b@.len(),
            next_byte(b@, p as int, end as int, x) == next_byte(b@, k as int, end as int, x),
        decreases end - k,
    {
        k += 1;
    }
    k
}

/// Whether byte `x` occurs in `[a, z)`.
pub open spec fn has_byte(t: Seq<u8>, a: int, z: int, x: u8) -> bool {
    exists|i: int| a <= i < z && t[i] == x
}

/// A boundary of the slice `t[s..e]` (cut at boundaries) is a
/// boundary of `t`.
pub proof fn lemma_boundary_lift(t: Seq<u8>, s: int, e: int, k: int)
    requires
        valid_utf8(t),
        0 <= s <= e <= t.len(),
        is_char_boundary(t, s),
        is_char_boundary(t, e),
        0 <= k <= e - s,
        valid_utf8(t.subrange(s, e)),
        is_char_boundary(t.subrange(s, e), k),
    ensures
        is_char_boundary(t, s + k),
{
    let c = t.subrange(s, e);
    if k < c.len() {
        is_char_boundary_iff_not_is_continuation_byte(c, k);
        is_char_boundary_iff_not_is_continuation_byte(t, s + k);
        assert(c[k] == t[s + k]);
    }
}

/// Encoding a prefix and the rest adds up to encoding the whole.
pub proof fn lemma_encode_split(cs: Seq<char>, i: int)
    requires
        0 <= i <= cs.len(),
    ensures
        encode_utf8(cs) == encode_utf8(cs.take(i)) + encode_utf8(cs.skip(i)),
        is_char_boundary(encode_utf8(cs), encode_utf8(cs.take(i)).len() as int),
{
    assert(cs =~= cs.take(i) + cs.skip(i));
    lemma_encode_concat(cs.take(i), cs.skip(i));
    lemma_boundary_at_join(cs.take(i), cs.skip(i));
}

/// Encoding one character more.
pub proof fn lemma_encode_push(cs: Seq<char>, c: char)
    ensures
        encode_utf8(cs.push(c)) == encode_utf8(cs) + encode_scalar(c as u32),
{
    assert(cs.push(c) =~= cs + seq![c]);
    lemma_encode_concat(cs, seq![c]);
    assert(encode_utf8(seq![c]) =~= encode_scalar(c as u32)) by {
        let one = seq![c];
        assert(one.drop_first() =~= Seq::<char>::empty());
        assert(encode_utf8(one.drop_first()) =~= Seq::<u8>::empty());
        assert(encode_utf8(one) == encode_scalar(one[0] as u32) + encode_utf8(one.drop_first()));
    }
}

/// Encoding one character before.
pub proof fn lemma_encode_cons(c: char, cs: Seq<char>)
    ensures
        encode_utf8(seq![c] + cs) == encode_scalar(c as u32) + encode_utf8(cs),
{
    assert((seq![c] + cs).drop_first() =~= cs);
}

/// Two strings are equal exactly when their encodings are.
pub proof fn lemma_encode_injective(a: Seq<char>, b: Seq<char>)
    requires
        encode_utf8(a) == encode_utf8(b),
    ensures
        a == b,
{
    encode_utf8_decode_utf8(a);
    encode_utf8_decode_utf8(b);
}

/// `a == b` on string slices.
pub fn str_eq(a: &str, b: &str) -> (r: bool)
    ensures
        r == (a@ == b@),
{
    let ab = a.as_bytes();
    let bb = b.as_bytes();
    let r = ab.len() == bb.len() && bytes_at(ab, 0, bb);
    proof {
        if r {
            assert(ab@ =~= ab@.subrange(0, bb@.len() as int));
            lemma_encode_injective(a@, b@);
        }
        if a@ == b@ {
            assert(ab@.subrange(0, bb@.len() as int) =~= bb@);
        }
    }
    r
}

/// `s.strip_prefix(p)`.
pub fn strip_prefix_str<'a>(s: &'a str, p: &str) -> (r: Option<&'a str>)
    ensures
        r is Some <==> (p@.len() <= s@.len() && s@.take(p@.len() as int) == p@),
        r matches Some(t) ==> t@ == s@.skip(p@.len() as int),
{
    let sb = s.as_bytes();
    let pb = p.as_bytes();
    let ghost sbs = s.spec_bytes();
    let ghost pbs = p.spec_bytes();
    if bytes_at(sb, 0, pb) {
        let m = pb.len();
        proof {
            assert(sbs.subrange(0, m as int) == pbs);
            lemma_boundary_after_valid(sbs, m as int);
        }
        let t = substr(s, m, sb.len());
        proof {
            valid_utf8_split(sbs, m as int);
            decode_utf8_split(sbs, m as int);
            encode_utf8_decode_utf8(s@);
            encode_utf8_decode_utf8(p@);
            encode_utf8_decode_utf8(t@);
            assert(s@ =~= p@ + t@);
            assert(s@.take(p@.len() as int) =~= p@);
            assert(s@.skip(p@.len() as int) =~= t@);
        }
        Some(t)
    } else {
        proof {
            if p@.len() <= s@.len() && s@.take(p@.len() as int) == p@ {
                assert(s@ =~= p@ + s@.skip(p@.len() as int));
                lemma_encode_concat(p@, s@.skip(p@.len() as int));
                assert(sbs.subrange(0, pbs.len() as int) =~= pbs);
            }
        }
        None
    }
}

/// `s` without its first character; `s` must not be empty.
pub fn skip_first_char(s: &str) -> (r: &str)
    requires
        s@.len() > 0,
    ensures
        r@ == s@.drop_first(),
{
    let v = chars_of(s);
    let k = char_len(v[0]);
    let ghost cs = s@;
    proof {
        lemma_encode_split(cs, 1);
        assert(cs.take(1) =~= seq![cs[0]]);
        lemma_encode_push(Seq::<char>::empty(), cs[0]);
        assert(seq![cs[0]] =~= Seq::<char>::empty().push(cs[0]));
        assert(encode_utf8(Seq::<char>::empty()) =~= Seq::<u8>::empty());
    }
    let n = s.as_bytes().len();
    let r = substr(s, k, n);
    proof {
        assert(r.spec_bytes() =~= encode_utf8(cs.skip(1)));
        lemma_encode_injective(r@, cs.skip(1));
        assert(cs.skip(1) =~= cs.drop_first());
    }
    r
}

/// `String::push`: appends the character `c`.
#[verifier::external_body]
pub(crate) fn push_char(out: &mut String, c: char)
    ensures
        final(out)@ == old(out)@.push(c),
{
    out.push(c);
}

/// The number of leading whitespace characters.
pub open spec fn ws_lead(cs: Seq<char>) -> nat
    decreases cs.len(),
{
    if cs.len() > 0 && is_ws(cs[0]) {
        1 + ws_lead(cs.drop_first())
    } else {
        0
    }
}

/// The number of trailing whitespace characters.
pub open spec fn ws_trail(cs: Seq<char>) -> nat
    decreases cs.len(),
{
    if cs.len() > 0 && is_ws(cs.last()) {
        1 + ws_trail(cs.drop_last())
    } else {
        0
    }
}

/// `str::trim`: without leading and trailing whitespace.
pub open spec fn trimmed(s: Seq<char>) -> Seq<char> {
    if ws_lead(s) >= s.len() {
        seq![]
    } else {
        s.subrange(ws_lead(s) as int, s.len() - ws_trail(s))
    }
}

/// `str::trim_end`: without trailing whitespace.
pub open spec fn trimmed_end(s: Seq<char>) -> Seq<char> {
    s.take(s.len() - ws_trail(s))
}

pub proof fn lemma_ws_lead(cs: Seq<char>, i: int)
    requires
        0 <= i <= cs.len(),
        forall|k: int| 0 <= k < i ==> is_ws(#[trigger] cs[k]),
        i == cs.len() || !is_ws(cs[i]),
    ensures
        ws_lead(cs) == i,
    decreases i,
{
    if i > 0 {
        assert(is_ws(cs[0]));
        let d = cs.drop_first();
        assert forall|k: int| 0 <= k < i - 1 implies is_ws(#[trigger] d[k]) by {
            assert(d[k] == cs[k + 1]);
        }
        lemma_ws_lead(d, i - 1);
    }
}

pub proof fn lemma_ws_trail(cs: Seq<char>, j: int)
    requires
        0 <= j <= cs.len(),
        forall|k: int| j <= k < cs.len() ==> is_ws(#[trigger] cs[k]),
        j == 0 || !is_ws(cs[j - 1]),
    ensures
        ws_trail(cs) == cs.len() - j,
    decreases cs.len() - j,
{
    if j < cs.len() {
        assert(is_ws(cs.last()));
        let d = cs.drop_last();
        assert forall|k: int| j <= k < d.len() implies is_ws(#[trigger] d[k]) by {
            assert(d[k] == cs[k]);
        }
        lemma_ws_trail(d, j);
    }
}

/// The whitespace-trimmed part of `v[a..b]`, as a range of `v`.
pub fn trim_range(v: &Vec<char>, a: usize, b: usize) -> (r: (usize, usize))
    requires
        a <= b <= v@.len(),
    ensures
        a <= r.0 <= r.1 <= b,
        v@.subrange(r.0 as int, r.1 as int) == trimmed(v@.subrange(a as int, b as int)),
{
    let ghost s = v@.subrange(a as int, b as int);
    let mut lo = a;
    while lo < b && char_is_ws(v[lo])
        invariant
            a <= lo <= b <= v@.len(),
            s == v@.subrange(a as int, b as int),
            forall|k: int| a <= k < lo ==> is_ws(#[trigger] v@[k]),
        decreases b - lo,
    {
        lo += 1;
    }
    proof {
        assert forall|k: int| 0 <= k < lo - a implies is_ws(#[trigger] s[k]) by {
            assert(s[k] == v@[a + k]);
        }
        lemma_ws_lead(s, lo - a);
    }
    if lo >= b {
        return (b, b);
    }
    let mut hi = b;
    while hi > lo && char_is_ws(v[hi - 1])
        invariant
            lo <= hi <= b <= v@.len(),
            lo < b,
            s == v@.subrange(a as int, b as int),
            forall|k: int| hi <= k < b ==> is_ws(#[trigger] v@[k]),
        decreases hi,
    {
        hi -= 1;
    }
    proof {
        assert forall|k: int| hi - a <= k < s.len() implies is_ws(#[trigger] s[k]) by {
            assert(s[k] == v@[a + k]);
        }
        assert(hi > lo) by {
            assert(!is_ws(v@[lo as int]));
        }
        lemma_ws_trail(s, hi - a);
        assert(trimmed(s) =~= v@.subrange(lo as int, hi as int));
    }
    (lo, hi)
}

/// The part of `v[a..b]` without trailing whitespace, as its end.
pub fn trim_end_range(v: &Vec<char>, a: usize, b: usize) -> (r: usize)
    requires
        a <= b <= v@.len(),
    ensures
        a <= r <= b,
        v@.subrange(a as int, r as int) == trimmed_end(v@.subrange(a as int, b as int)),
{
    let ghost s = v@.subrange(a as int, b as int);
    let mut hi = b;
    while hi > a && char_is_ws(v[hi - 1])
        invariant
            a <= hi <= b <= v@.len(),
            s == v@.subrange(a as int, b as int),
            forall|k: int| hi <= k < b ==> is_ws(#[trigger] v@[k]),
        decreases hi,
    {
        hi -= 1;
    }
    proof {
        assert forall|k: int| hi - a <= k < s.len() implies is_ws(#[trigger] s[k]) by {
            assert(s[k] == v@[a + k]);
        }
        lemma_ws_trail(s, hi - a);
        assert(trimmed_end(s) =~= v@.subrange(a as int, hi as int));
    }
    hi
}

/// The characters `v[a..b]` as a string.
pub fn string_of(v: &Vec<char>, a: usize, b: usize) -> (r: String)
    requires
        a <= b <= v@.len(),
    ensures
        r@ == v@.subrange(a as int, b as int),
{
    let mut out = String::new();
    let mut k = a;
    assert(out@ =~= v@.subrange(a as int, a as int));
    while k < b
        invariant
            a <= k <= b <= v@.len(),
            out@ == v@.subrange(a as int, k as int),
        decreases b - k,
    {
        push_char(&mut out, v[k]);
        assert(out@ =~= v@.subrange(a as int, k + 1));
        k += 1;
    }
    out
}

/// Whether `i` is a character boundary of `s`.
pub open spec fn boundary(s: &str, i: int) -> bool {
    is_char_boundary(s.spec_bytes(), i)
}

/// `&s[a..b]`, for boundaries `a <= b`.
pub fn substr(s: &str, a: usize, b: usize) -> (r: &str)
    requires
        a <= b <= s.spec_bytes().len(),
        boundary(s, a as int),
        boundary(s, b as int),
    ensures
        r.spec_bytes() == s.spec_bytes().subrange(a as int, b as int),
{
    let bytes = Ghost(s.spec_bytes());
    proof {
        lemma_boundary_in_suffix(bytes@, a as int, b as int);
    }
    let (_, tail) = s.split_at(a);
    assert(tail.spec_bytes() =~= bytes@.subrange(a as int, bytes@.len() as int));
    let (mid, _) = tail.split_at(b - a);
    assert(mid.spec_bytes() =~= bytes@.subrange(a as int, b as int));
    mid
}

/// Appends `x` to `out`.
pub fn push_str(out: &mut String, x: &str)
    ensures
        final(out)@ == old(out)@ + x@,
        sbytes(*final(out)) == sbytes(*old(out)) + x.spec_bytes(),
{
    proof {
        lemma_encode_concat(out@, x@);
    }
    out.append(x);
}


/// Whether byte `i` starts a character (or ends the text) in valid
/// UTF-8 bytes.
pub fn is_boundary(b: &[u8], i: usize) -> (r: bool)
    requires
        valid_utf8(b@),
    ensures
        r == is_char_boundary(b@, i as int),
{
    if i == 0 || i == b.len() {
        true
    } else if i > b.len() {
        false
    } else {
        proof {
            is_char_boundary_iff_not_is_continuation_byte(b@, i as int);
        }
        !(128u8 <= b[i] && b[i] <= 191u8)
    }
}

/// `char::is_whitespace`: the Unicode `White_Space` property.
pub open spec fn is_ws(c: char) -> bool {
    ('\x09' <= c <= '\x0d') || c == ' ' || c == '\u{85}' || c == '\u{a0}' || c == '\u{1680}'
        || ('\u{2000}' <= c <= '\u{200a}') || c == '\u{2028}' || c == '\u{2029}' || c
        == '\u{202f}' || c == '\u{205f}' || c == '\u{3000}'
}

pub fn char_is_ws(c: char) -> (r: bool)
    ensures
        r == is_ws(c),
{
    ('\x09' <= c && c <= '\x0d') || c == ' ' || c == '\u{85}' || c == '\u{a0}' || c == '\u{1680}'
        || ('\u{2000}' <= c && c <= '\u{200a}') || c == '\u{2028}' || c == '\u{2029}' || c
        == '\u{202f}' || c == '\u{205f}' || c == '\u{3000}'
}

/// Whether every character of `s` is whitespace (`s.trim().is_empty()`).
pub fn all_whitespace(s: &str) -> (r: bool)
    ensures
        r == (forall|k: int| 0 <= k < s@.len() ==> is_ws(#[trigger] s@[k])),
{
    let mut ok = true;
    for c in it: s.chars()
        invariant
            it.seq() == s@,
            ok == (forall|k: int| 0 <= k < it.index() ==> is_ws(#[trigger] s@[k])),
    {
        if !char_is_ws(c) {
            ok = false;
        }
    }
    ok
}

/// The decimal digits of `n`, as ASCII bytes.
pub open spec fn decimal(n: nat) -> Seq<u8>
    decreases n,
{
    if n < 10 {
        seq![(48 + n) as u8]
    } else {
        decimal(n / 10).push((48 + n % 10) as u8)
    }
}

/// The value of a run of ASCII decimal digits.
pub open spec fn dec_value(s: Seq<u8>) -> nat
    decreases s.len(),
{
    if s.len() == 0 {
        0
    } else {
        dec_value(s.drop_last()) * 10 + (s.last() - 48) as nat
    }
}

pub open spec fn pow10(k: nat) -> nat
    decreases k,
{
    if k == 0 {
        1
    } else {
        10 * pow10((k - 1) as nat)
    }
}

pub open spec fn is_digit(b: u8) -> bool {
    48 <= b <= 57
}

fn digit_str(d: u64) -> (r: &'static str)
    requires
        d < 10,
    ensures
        r.spec_bytes() == seq![(48 + d) as u8],
{
    let r = match d {
        0 => {
            proof {
                reveal_strlit("0");
            }
            "0"
        },
        1 => {
            proof {
                reveal_strlit("1");
            }
            "1"
        },
        2 => {
            proof {
                reveal_strlit("2");
            }
            "2"
        },
        3 => {
            proof {
                reveal_strlit("3");
            }
            "3"
        },
        4 => {
            proof {
                reveal_strlit("4");
            }
            "4"
        },
        5 => {
            proof {
                reveal_strlit("5");
            }
            "5"
        },
        6 => {
            proof {
                reveal_strlit("6");
            }
            "6"
        },
        7 => {
            proof {
                reveal_strlit("7");
            }
            "7"
        },
        8 => {
            proof {
                reveal_strlit("8");
            }
            "8"
        },
        _ => {
            proof {
                reveal_strlit("9");
            }
            "9"
        },
    };
    proof {
        assert(r@.len() == 1);
        assert(r@[0] as u32 == 48 + d);
        assert(is_ascii_chars(r@));
        is_ascii_chars_encode_utf8(r@);
        assert(r.spec_bytes() =~= seq![(48 + d) as u8]);
    }
    r
}

/// Appends the decimal digits of `n`.
pub fn push_decimal(out: &mut String, n: u64)
    ensures
        sbytes(*final(out)) == sbytes(*old(out)) + decimal(n as nat),
    decreases n,
{
    if n >= 10 {
        push_decimal(out, n / 10);
    }
    push_str(out, digit_str(n % 10));
    assert(sbytes(*out) =~= sbytes(*old(out)) + decimal(n as nat));
}

/// The value of the `count` (at most nine) ASCII digits at `start`.
pub fn parse_digits(b: &[u8], start: usize, count: usize) -> (r: u64)
    requires
        count <= 9,
        start + count <= b@.len(),
        forall|k: int| start <= k < start + count ==> is_digit(#[trigger] b@[k]),
    ensures
        r == dec_value(b@.subrange(start as int, start + count)),
        r < pow10(count as nat),
{
    let mut v: u64 = 0;
    let mut k: usize = 0;
    let n = b.len();
    assert(b@.subrange(start as int, start as int) =~= Seq::<u8>::empty());
    while k < count
        invariant
            n == b@.len(),
            k <= count <= 9,
            start + count <= b@.len(),
            forall|m: int| start <= m < start + count ==> is_digit(#[trigger] b@[m]),
            v == dec_value(b@.subrange(start as int, start + k)),
            v < pow10(k as nat),
            pow10(k as nat) <= 1_000_000_000,
        decreases count - k,
    {
        let d = b[start + k] - 48;
        let ghost p = pow10(k as nat);
        assert(v * 10 + d < 10 * p) by (nonlinear_arith)
            requires
                v < p,
                d < 10,
        ;
        assert(pow10((k + 1) as nat) == 10 * p);
        proof {
            lemma_pow10_mono((k + 1) as nat, 9);
            assert(pow10(9) == 1_000_000_000) by {
                reveal_with_fuel(pow10, 10);
            }
        }
        let ghost sub = b@.subrange(start as int, start + k + 1);
        assert(sub.drop_last() =~= b@.subrange(start as int, start + k));
        v = v * 10 + (d as u64);
        k += 1;
    }
    v
}

pub proof fn lemma_pow10_mono(a: nat, b: nat)
    requires
        a <= b,
    ensures
        pow10(a) <= pow10(b),
    decreases b,
{
    if a < b {
        lemma_pow10_mono(a, (b - 1) as nat);
    }
}

/// An ASCII byte always starts a character.
pub proof fn lemma_ascii_boundary(bytes: Seq<u8>, i: int)
    requires
        valid_utf8(bytes),
        0 <= i < bytes.len(),
        bytes[i] < 128,
    ensures
        is_char_boundary(bytes, i),
        is_char_boundary(bytes, i + 1),
{
    is_char_boundary_iff_not_is_continuation_byte(bytes, i);
    let suf = bytes.subrange(i, bytes.len() as int);
    lemma_boundary_in_suffix(bytes, i, i);
    assert(suf[0] == bytes[i]);
    assert(length_of_first_scalar(suf) == 1);
    assert(is_char_boundary(suf, 1)) by {
        reveal_with_fuel(is_char_boundary, 2);
        assert(pop_first_scalar(suf) =~= suf.subrange(1, suf.len() as int));
    }
    if i + 1 == bytes.len() {
    } else {
        is_char_boundary_iff_not_is_continuation_byte(suf, 1);
        assert(suf[1] == bytes[i + 1]);
        is_char_boundary_iff_not_is_continuation_byte(bytes, i + 1);
    }
}

/// A one-character ASCII string literal for byte `c`.
pub fn ascii_str(c: u8) -> (r: &'static str)
    requires
        c == 32 || c == 10 || c == 35 || c == 41 || c == 46 || c == 62 || c == 91 || c == 93 || c
            == 40 || c == 45 || c == 42 || c == 43 || c == 124 || c == 34 || c == 61,
    ensures
        r.spec_bytes() == seq![c],
{
    let r = if c == 32 {
        proof {
            reveal_strlit(" ");
        }
        " "
    } else if c == 10 {
        proof {
            reveal_strlit("\n");
        }
        "\n"
    } else if c == 35 {
        proof {
            reveal_strlit("#");
        }
        "#"
    } else if c == 41 {
        proof {
            reveal_strlit(")");
        }
        ")"
    } else if c == 46 {
        proof {
            reveal_strlit(".");
        }
        "."
    } else if c == 62 {
        proof {
            reveal_strlit(">");
        }
        ">"
    } else if c == 91 {
        proof {
            reveal_strlit("[");
        }
        "["
    } else if c == 93 {
        proof {
            reveal_strlit("]");
        }
        "]"
    } else if c == 40 {
        proof {
            reveal_strlit("(");
        }
        "("
    } else if c == 45 {
        proof {
            reveal_strlit("-");
        }
        "-"
    } else if c == 42 {
        proof {
            reveal_strlit("*");
        }
        "*"
    } else if c == 43 {
        proof {
            reveal_strlit("+");
        }
        "+"
    } else if c == 124 {
        proof {
            reveal_strlit("|");
        }
        "|"
    } else if c == 34 {
        proof {
            reveal_strlit("\"");
        }
        "\""
    } else {
        proof {
            reveal_strlit("=");
        }
        "="
    };
    proof {
        assert(r@.len() == 1);
        assert(r@[0] as u32 == c);
        assert(is_ascii_chars(r@));
        is_ascii_chars_encode_utf8(r@);
        assert(r.spec_bytes() =~= seq![c]);
    }
    r
}
} // verus!
