//! Text buffer: a rope with byte-offset addressing and a single edit
//! primitive. Byte offsets are the universal currency of the editor;
//! the rope itself counts characters, so every call converts.
use vstd::prelude::*;
use vstd::utf8::*;
use core::ops::Range;
use ropey::Rope;
use crate::text::{chars_of, lemma_encode_concat, lemma_encode_split, string_of};

verus! {

#[verifier::external_type_specification]
#[verifier::external_body]
pub struct ExRope(Rope);

/// The characters a rope holds.
pub uninterp spec fn rope_chars(r: Rope) -> Seq<char>;

/// How many lines `Rope::len_lines` reports for a text.
pub uninterp spec fn rope_len_lines(t: Seq<char>) -> nat;

/// The text of line `ix` (line break included) as `Rope::line` reports it.
pub uninterp spec fn rope_line(t: Seq<char>, ix: int) -> Seq<char>;

/// The byte where line `ix` starts, as `Rope::line_to_byte` reports it.
pub uninterp spec fn rope_line_to_byte(t: Seq<char>, ix: int) -> nat;

/// The line holding byte `b`, as `Rope::byte_to_line` reports it.
pub uninterp spec fn rope_byte_to_line(t: Seq<char>, b: int) -> nat;

/// The number of UTF-8 bytes of a text.
pub open spec fn blen(t: Seq<char>) -> nat {
    encode_utf8(t).len()
}

/// The number of whole characters in the first `b` bytes of `t`: the
/// index of the character that byte `b` belongs to.
pub open spec fn char_ix(t: Seq<char>, b: int) -> nat
    decreases t.len(),
{
    if t.len() == 0 {
        0
    } else if encode_scalar(t[0] as u32).len() <= b {
        1 + char_ix(t.drop_first(), b - encode_scalar(t[0] as u32).len())
    } else {
        0
    }
}

/// Byte `b` is where a character of `t` starts (or the end of `t`).
pub open spec fn is_cut(t: Seq<char>, b: int) -> bool {
    exists|k: int| 0 <= k <= t.len() && blen(t.take(k)) == b
}

/// `t` with its bytes `[start, end)` replaced by `x`, at character
/// granularity (a byte inside a character stands for that character).
pub open spec fn splice(t: Seq<char>, start: int, end: int, x: Seq<char>) -> Seq<char> {
    t.take(char_ix(t, start) as int) + x + t.skip(char_ix(t, end) as int)
}

/// `l` is the stretch of `t` that starts at byte `start`.
pub open spec fn line_in_text(t: Seq<char>, start: int, l: Seq<char>) -> bool {
    exists|k: int|
        0 <= k && k + l.len() <= t.len() && blen(t.take(k)) == start && t.subrange(k, k + l.len())
            == l
}

/// Byte `b` lies on line `n`: from the line's start to its end, and
/// at the line's end only when that is the end of the text, on a line
/// without a trailing newline.
pub open spec fn on_line(t: Seq<char>, b: int, n: int) -> bool {
    let start = rope_line_to_byte(t, n);
    let l = rope_line(t, n);
    &&& start <= b <= start + blen(l)
    &&& b == start + blen(l) ==> b == blen(t) && strip_nl(l) == l
}

/// A line's text without its trailing `'\n'`.
pub open spec fn strip_nl(s: Seq<char>) -> Seq<char> {
    if s.len() > 0 && s.last() == '\n' {
        s.drop_last()
    } else {
        s
    }
}

/// The first character of a text is where its encoding starts.
proof fn lemma_encode_first(t: Seq<char>)
    requires
        t.len() > 0,
    ensures
        blen(t) == encode_scalar(t[0] as u32).len() + blen(t.drop_first()),
        encode_scalar(t[0] as u32).len() >= 1,
{
    assert(t =~= seq![t[0]] + t.drop_first());
    crate::text::lemma_encode_cons(t[0], t.drop_first());
}

/// The prefix of `k` characters has its own byte length as its index.
pub proof fn lemma_char_ix_at(t: Seq<char>, k: int)
    requires
        0 <= k <= t.len(),
    ensures
        char_ix(t, blen(t.take(k)) as int) == k,
    decreases k,
{
    if t.len() == 0 {
        assert(t.take(k) =~= Seq::<char>::empty());
    } else if k == 0 {
        assert(t.take(0) =~= Seq::<char>::empty());
        lemma_encode_first(t);
    } else {
        let tk = t.take(k);
        lemma_encode_first(tk);
        assert(tk.drop_first() =~= t.drop_first().take(k - 1));
        lemma_char_ix_at(t.drop_first(), k - 1);
    }
}

/// `char_ix` counts whole characters: at most all of them, within `b`.
pub proof fn lemma_char_ix_bounds(t: Seq<char>, b: int)
    requires
        b >= 0,
    ensures
        char_ix(t, b) <= t.len(),
        blen(t.take(char_ix(t, b) as int)) <= b,
        char_ix(t, b) < t.len() ==> b < blen(t.take(char_ix(t, b) + 1int)),
    decreases t.len(),
{
    if t.len() == 0 {
        assert(t.take(0) =~= Seq::<char>::empty());
    } else {
        let w = encode_scalar(t[0] as u32).len() as int;
        lemma_encode_first(t);
        if w <= b {
            lemma_char_ix_bounds(t.drop_first(), b - w);
            let n = char_ix(t, b) as int;
            lemma_encode_first(t.take(n));
            assert(t.take(n).drop_first() =~= t.drop_first().take(n - 1));
            if n < t.len() {
                lemma_encode_first(t.take(n + 1));
                assert(t.take(n + 1).drop_first() =~= t.drop_first().take(n));
            }
        } else {
            assert(t.take(0) =~= Seq::<char>::empty());
            lemma_encode_first(t.take(1));
            assert(t.take(1).drop_first() =~= Seq::<char>::empty());
        }
    }
}

/// More bytes never hold fewer characters.
pub proof fn lemma_char_ix_mono(t: Seq<char>, a: int, b: int)
    requires
        0 <= a <= b,
    ensures
        char_ix(t, a) <= char_ix(t, b),
    decreases t.len(),
{
    if t.len() > 0 {
        let w = encode_scalar(t[0] as u32).len() as int;
        if w <= a {
            lemma_char_ix_mono(t.drop_first(), a - w, b - w);
        }
    }
}

/// Longer prefixes take more bytes, one byte at least per character.
pub proof fn lemma_prefix_blen_mono(t: Seq<char>, i: int, j: int)
    requires
        0 <= i <= j <= t.len(),
    ensures
        blen(t.take(i)) + (j - i) <= blen(t.take(j)),
        blen(t.take(j)) <= blen(t),
    decreases j - i,
{
    lemma_encode_split(t, j);
    if i < j {
        lemma_prefix_blen_mono(t, i, j - 1);
        let tj = t.take(j);
        assert(tj =~= t.take(j - 1).push(t[j - 1]));
        crate::text::lemma_encode_push(t.take(j - 1), t[j - 1]);
        lemma_encode_split(t, j - 1);
    }
}

/// The byte length of `t[a..b]` is the difference of the prefixes'.
pub proof fn lemma_blen_subrange(t: Seq<char>, a: int, b: int)
    requires
        0 <= a <= b <= t.len(),
    ensures
        blen(t.take(a)) + blen(t.subrange(a, b)) == blen(t.take(b)),
{
    assert(t.take(b) =~= t.take(a) + t.subrange(a, b));
    lemma_encode_concat(t.take(a), t.subrange(a, b));
}

/// Putting back what a replacement took out restores the text: the
/// bytes the new text occupies, replaced by the old text, give the text
/// before the edit, provided the edit started at a character boundary.
pub proof fn lemma_splice_undo(t: Seq<char>, start: int, end: int, x: Seq<char>)
    requires
        0 <= start <= end <= blen(t),
        is_cut(t, start),
    ensures
        ({
            let u = splice(t, start, end, x);
            let old = t.subrange(char_ix(t, start) as int, char_ix(t, end) as int);
            &&& start + blen(x) <= blen(u)
            &&& splice(u, start, start + blen(x), old) == t
        }),
{
    let k = choose|k: int| 0 <= k <= t.len() && blen(t.take(k)) == start;
    lemma_char_ix_at(t, k);
    lemma_char_ix_mono(t, start, end);
    lemma_char_ix_bounds(t, end);
    let a = char_ix(t, start) as int;
    let b = char_ix(t, end) as int;
    let u = splice(t, start, end, x);
    assert(u.take(a) =~= t.take(a));
    lemma_char_ix_at(u, a);
    assert(u.take(a + x.len()) =~= t.take(a) + x);
    lemma_encode_concat(t.take(a), x);
    lemma_char_ix_at(u, a + x.len());
    lemma_prefix_blen_mono(u, a + x.len(), u.len() as int);
    let old = t.subrange(a, b);
    assert(splice(u, start, start + blen(x), old) =~= t);
}

/// The rope of `text`.
#[verifier::external_body]
fn rope_from_str(text: &str) -> (r: Rope)
    ensures
        rope_chars(r) == text@,
{
    Rope::from_str(text)
}

/// `Rope::to_string`: the whole text.
#[verifier::external_body]
fn rope_text(r: &Rope) -> (s: String)
    ensures
        s@ == rope_chars(*r),
{
    r.to_string()
}

/// `Rope::len_bytes`: the UTF-8 length of the text.
#[verifier::external_body]
fn rope_len_bytes(r: &Rope) -> (n: usize)
    ensures
        n == blen(rope_chars(*r)),
{
    r.len_bytes()
}

/// `Rope::len_lines`: how many lines the text has.
#[verifier::external_body]
fn rope_lines(r: &Rope) -> (n: usize)
    ensures
        n == rope_len_lines(rope_chars(*r)),
{
    r.len_lines()
}

/// `Rope::line(ix).to_string()`: the text of line `ix`, its line break
/// included, which is the stretch of the text starting at the byte
/// `Rope::line_to_byte(ix)` reports.
#[verifier::external_body]
fn rope_line_text(r: &Rope, ix: usize) -> (line: String)
    requires
        ix < rope_len_lines(rope_chars(*r)),
    ensures
        line@ == rope_line(rope_chars(*r), ix as int),
        line_in_text(rope_chars(*r), rope_line_to_byte(rope_chars(*r), ix as int) as int, line@),
{
    r.line(ix).to_string()
}

/// `Rope::line_to_byte`: where line `ix` starts; the line one past the
/// last starts at the end of the text.
#[verifier::external_body]
fn rope_line_start(r: &Rope, ix: usize) -> (n: usize)
    requires
        ix <= rope_len_lines(rope_chars(*r)),
    ensures
        n == rope_line_to_byte(rope_chars(*r), ix as int),
        n <= blen(rope_chars(*r)),
{
    r.line_to_byte(ix)
}

/// `Rope::byte_to_line`: the line that byte `b` lies on. The byte lies
/// between that line's start and its end; only the end of the text lies
/// on a line's end, and the line there has no trailing newline.
#[verifier::external_body]
fn rope_line_of(r: &Rope, b: usize) -> (n: usize)
    requires
        b <= blen(rope_chars(*r)),
    ensures
        n == rope_byte_to_line(rope_chars(*r), b as int),
        n < rope_len_lines(rope_chars(*r)),
        on_line(rope_chars(*r), b as int, n as int),
{
    r.byte_to_line(b)
}

/// `Rope::byte_to_char`: the index of the character byte `b` belongs to
/// (one past the last for the end of the text).
#[verifier::external_body]
fn rope_char_of(r: &Rope, b: usize) -> (n: usize)
    requires
        b <= blen(rope_chars(*r)),
    ensures
        n == char_ix(rope_chars(*r), b as int),
{
    r.byte_to_char(b)
}

/// `Rope::slice(a..b).to_string()`: characters `a..b`.
#[verifier::external_body]
fn rope_slice(r: &Rope, a: usize, b: usize) -> (s: String)
    requires
        a <= b <= rope_chars(*r).len(),
    ensures
        s@ == rope_chars(*r).subrange(a as int, b as int),
{
    r.slice(a..b).to_string()
}

/// `Rope::remove(a..b)`: drops characters `a..b`.
#[verifier::external_body]
fn rope_remove(r: &mut Rope, a: usize, b: usize)
    requires
        a <= b <= rope_chars(*old(r)).len(),
    ensures
        rope_chars(*final(r)) == rope_chars(*old(r)).take(a as int) + rope_chars(*old(r)).skip(
            b as int,
        ),
{
    r.remove(a..b)
}

/// `Rope::insert(at, text)`: puts `text` before character `at`.
#[verifier::external_body]
fn rope_insert(r: &mut Rope, at: usize, text: &str)
    requires
        at <= rope_chars(*old(r)).len(),
    ensures
        rope_chars(*final(r)) == rope_chars(*old(r)).take(at as int) + text@ + rope_chars(
            *old(r),
        ).skip(at as int),
{
    r.insert(at, text)
}

/// One replacement of the buffer: the bytes `range` of the text before
/// it held `old` and now hold `new`.
#[derive(Debug, PartialEq, Eq)]
pub struct Edit {
    /// Pre-edit byte range that was replaced.
    pub range: Range<usize>,
    pub old: String,
    pub new: String,
}

impl Clone for Edit {
    fn clone(&self) -> (r: Self)
        ensures
            r.range == self.range,
            r.old@ == self.old@,
            r.new@ == self.new@,
    {
        Edit { range: self.range.start..self.range.end, old: self.old.clone(), new: self.new.clone() }
    }
}

/// `e` is what `Buffer::replace` reports when it turns `t` into `u`.
pub open spec fn edit_ok(t: Seq<char>, e: Edit, u: Seq<char>) -> bool {
    &&& e.range.start <= e.range.end <= blen(t)
    &&& u == splice(t, e.range.start as int, e.range.end as int, e.new@)
    &&& e.old@ == t.subrange(
        char_ix(t, e.range.start as int) as int,
        char_ix(t, e.range.end as int) as int,
    )
}

/// The document's text.
pub struct Buffer {
    rope: Rope,
}

impl View for Buffer {
    type V = Seq<char>;

    closed spec fn view(&self) -> Seq<char> {
        rope_chars(self.rope)
    }
}

impl Buffer {
    pub fn from_text(text: &str) -> (r: Self)
        ensures
            r@ == text@,
    {
        Self { rope: rope_from_str(text) }
    }

    pub fn text(&self) -> (r: String)
        ensures
            r@ == self@,
    {
        rope_text(&self.rope)
    }

    pub fn len_bytes(&self) -> (r: usize)
        ensures
            r == blen(self@),
    {
        rope_len_bytes(&self.rope)
    }

    pub fn line_count(&self) -> (r: usize)
        ensures
            r == rope_len_lines(self@),
    {
        rope_lines(&self.rope)
    }

    /// Line `ix` without its trailing newline.
    pub fn line_text(&self, ix: usize) -> (r: String)
        requires
            ix < rope_len_lines(self@),
        ensures
            r@ == strip_nl(rope_line(self@, ix as int)),
            line_in_text(self@, rope_line_to_byte(self@, ix as int) as int, rope_line(self@, ix as int)),
    {
        let line = rope_line_text(&self.rope, ix);
        let cs = chars_of(line.as_str());
        let n = cs.len();
        if n > 0 && cs[n - 1] == '\n' {
            string_of(&cs, 0, n - 1)
        } else {
            proof {
                assert(cs@.subrange(0, n as int) =~= cs@);
            }
            string_of(&cs, 0, n)
        }
    }

    /// The bytes of line `ix`, its newline excluded.
    pub fn line_range(&self, ix: usize) -> (r: Range<usize>)
        requires
            ix < rope_len_lines(self@),
        ensures
            r.start == rope_line_to_byte(self@, ix as int),
            r.end == r.start + blen(strip_nl(rope_line(self@, ix as int))),
            r.end <= blen(self@),
    {
        let total = rope_len_bytes(&self.rope);
        let start = rope_line_start(&self.rope, ix);
        let text = self.line_text(ix);
        let ghost t = self@;
        let ghost l = rope_line(t, ix as int);
        proof {
            let k = choose|k: int|
                0 <= k && k + l.len() <= t.len() && blen(t.take(k)) == start && t.subrange(
                    k,
                    k + l.len(),
                ) == l;
            lemma_blen_subrange(t, k, k + l.len());
            lemma_prefix_blen_mono(t, k + l.len(), t.len() as int);
            assert(t.take(t.len() as int) =~= t);
            if l.len() > 0 && l.last() == '\n' {
                assert(l =~= l.drop_last() + seq!['\n']);
                lemma_encode_concat(l.drop_last(), seq!['\n']);
            }
        }
        start..start + text.as_str().len()
    }

    /// The line holding byte `offset` (the end of the text for offsets
    /// past it).
    pub fn line_of_byte(&self, offset: usize) -> (r: usize)
        ensures
            r == rope_byte_to_line(
                self@,
                if offset <= blen(self@) {
                    offset as int
                } else {
                    blen(self@) as int
                },
            ),
            r < rope_len_lines(self@),
            on_line(
                self@,
                if offset <= blen(self@) {
                    offset as int
                } else {
                    blen(self@) as int
                },
                r as int,
            ),
    {
        let n = rope_len_bytes(&self.rope);
        let b = if offset <= n {
            offset
        } else {
            n
        };
        rope_line_of(&self.rope, b)
    }

    /// The text of the bytes `range`.
    pub fn slice(&self, range: Range<usize>) -> (r: String)
        requires
            range.start <= range.end <= blen(self@),
        ensures
            r@ == self@.subrange(
                char_ix(self@, range.start as int) as int,
                char_ix(self@, range.end as int) as int,
            ),
    {
        let start = rope_char_of(&self.rope, range.start);
        let end = rope_char_of(&self.rope, range.end);
        proof {
            lemma_char_ix_mono(self@, range.start as int, range.end as int);
            lemma_char_ix_bounds(self@, range.end as int);
        }
        rope_slice(&self.rope, start, end)
    }

    /// Replaces the bytes `range` with `text` and reports the edit.
    pub fn replace(&mut self, range: Range<usize>, text: &str) -> (r: Edit)
        requires
            range.start <= range.end <= blen(old(self)@),
        ensures
            final(self)@ == splice(old(self)@, range.start as int, range.end as int, text@),
            r.range == range,
            r.old@ == old(self)@.subrange(
                char_ix(old(self)@, range.start as int) as int,
                char_ix(old(self)@, range.end as int) as int,
            ),
            r.new@ == text@,
    {
        let old = self.slice(range.start..range.end);
        let start = rope_char_of(&self.rope, range.start);
        let end = rope_char_of(&self.rope, range.end);
        let ghost t = self@;
        proof {
            lemma_char_ix_mono(t, range.start as int, range.end as int);
            lemma_char_ix_bounds(t, range.end as int);
        }
        rope_remove(&mut self.rope, start, end);
        rope_insert(&mut self.rope, start, text);
        proof {
            assert(self@ =~= splice(t, range.start as int, range.end as int, text@));
        }
        Edit { range, old, new: text.to_owned() }
    }
}

} // verus!
