//! Cursor movement over a Buffer. All functions take and return byte
//! offsets. Vertical (up/down) movement is the view layer's job: it
//! needs wrapped-line geometry.
use vstd::prelude::*;
use vstd::utf8::*;
use vstd::string::*;
use unicode_segmentation::UnicodeSegmentation;
use crate::editor::buffer::{
    blen, char_ix, is_cut, lemma_blen_subrange, lemma_char_ix_at, lemma_prefix_blen_mono,
    line_in_text, on_line, rope_byte_to_line, rope_line, rope_line_to_byte, strip_nl, Buffer,
};
use crate::text::{chars_of, lemma_encode_concat, lemma_encode_injective, lemma_encode_split, substr};

verus! {

broadcast use vstd::utf8::encode_utf8_valid_utf8;

/// The byte offsets where the extended grapheme clusters of a text
/// start, as `UnicodeSegmentation::grapheme_indices` reports them.
pub uninterp spec fn grapheme_starts(s: Seq<char>) -> Seq<usize>;

/// `s.grapheme_indices(true)`, offsets only: the clusters tile the
/// text, so the offsets rise strictly, start at 0, lie inside the text
/// and on character boundaries, and there are some exactly when the
/// text is not empty.
#[verifier::external_body]
fn grapheme_offsets(s: &str) -> (r: Vec<usize>)
    ensures
        r@ == grapheme_starts(s@),
        r@.len() > 0 <==> s@.len() > 0,
        r@.len() > 0 ==> r@[0] == 0,
        forall|i: int| 0 <= i < r@.len() ==> r@[i] < s.spec_bytes().len(),
        forall|i: int| 0 <= i < r@.len() ==> is_char_boundary(s.spec_bytes(), #[trigger] r@[i] as int),
        forall|i: int, j: int| 0 <= i < j < r@.len() ==> r@[i] < r@[j],
{
    s.grapheme_indices(true).map(|(i, _)| i).collect()
}

/// Where the grapheme after byte `offset` starts.
pub open spec fn spec_next_grapheme(t: Seq<char>, offset: int) -> int {
    let len = blen(t);
    if offset >= len {
        len as int
    } else {
        let ix = rope_byte_to_line(t, offset) as int;
        let start = rope_line_to_byte(t, ix) as int;
        let line = strip_nl(rope_line(t, ix));
        let end = start + blen(line);
        if offset >= end {
            if offset + 1 <= len {
                offset + 1
            } else {
                len as int
            }
        } else {
            let g = grapheme_starts(line.skip(char_ix(line, offset - start) as int));
            if g.len() > 1 {
                offset + g[1]
            } else {
                end
            }
        }
    }
}

/// Where the grapheme before byte `offset` starts.
pub open spec fn spec_prev_grapheme(t: Seq<char>, offset: int) -> int {
    if offset == 0 {
        0
    } else {
        let ix = rope_byte_to_line(t, offset) as int;
        let start = rope_line_to_byte(t, ix) as int;
        if offset <= start {
            offset - 1
        } else {
            let line = strip_nl(rope_line(t, ix));
            let g = grapheme_starts(line.take(char_ix(line, offset - start) as int));
            if g.len() > 0 {
                start + g.last()
            } else {
                start
            }
        }
    }
}

/// A character boundary `offset` of the text, inside line `ix`'s text
/// (newline excluded), is a boundary of that line at `offset - start`,
/// with `k` characters before it.
proof fn lemma_cut_in_line(t: Seq<char>, offset: int, ix: int, start: int, l: Seq<char>) -> (k: int)
    requires
        is_cut(t, offset),
        line_in_text(t, start, l),
        start <= offset <= start + blen(strip_nl(l)),
    ensures
        0 <= k <= strip_nl(l).len(),
        blen(strip_nl(l).take(k)) == offset - start,
        char_ix(strip_nl(l), offset - start) == k,
        is_char_boundary(encode_utf8(strip_nl(l)), offset - start),
{
    let j = choose|j: int| 0 <= j <= t.len() && blen(t.take(j)) == offset;
    let p = choose|p: int|
        0 <= p && p + l.len() <= t.len() && blen(t.take(p)) == start && t.subrange(p, p + l.len())
            == l;
    let s = strip_nl(l);
    if l.len() > 0 && l.last() == '\n' {
        assert(l =~= l.drop_last() + seq!['\n']);
        lemma_encode_concat(l.drop_last(), seq!['\n']);
    }
    assert(s.len() <= l.len());
    assert(t.subrange(p, p + s.len()) =~= s);
    lemma_blen_subrange(t, p, p + s.len());
    if j < p {
        lemma_prefix_blen_mono(t, j, p);
    }
    if j > p + s.len() {
        lemma_prefix_blen_mono(t, p + s.len(), j);
    }
    let k = j - p;
    lemma_blen_subrange(t, p, j);
    assert(s.take(k) =~= t.subrange(p, j));
    lemma_char_ix_at(s, k);
    lemma_encode_split(s, k);
    k
}

/// The offset one grapheme after `offset`: the end of the text at or
/// past it, the next line's start from a line's end.
pub fn next_grapheme(buf: &Buffer, offset: usize) -> (r: usize)
    requires
        offset >= blen(buf@) || is_cut(buf@, offset as int),
    ensures
        r == spec_next_grapheme(buf@, offset as int),
        offset < blen(buf@) ==> offset < r <= blen(buf@),
        offset >= blen(buf@) ==> r == blen(buf@),
{
    let len = buf.len_bytes();
    if offset >= len {
        return len;
    }
    let line_ix = buf.line_of_byte(offset);
    let range = buf.line_range(line_ix);
    if offset >= range.end {
        // Sitting on the newline: step onto the next line's start.
        return if offset + 1 <= len {
            offset + 1
        } else {
            len
        };
    }
    let line = buf.line_text(line_ix);
    let local = offset - range.start;
    let ghost t = buf@;
    let ghost l = rope_line(t, line_ix as int);
    let ghost s = strip_nl(l);
    let ghost k = lemma_cut_in_line(t, offset as int, line_ix as int, range.start as int, l);
    proof {
        lemma_encode_split(s, k);
        is_char_boundary_start_end_of_seq(encode_utf8(s));
    }
    let rest = substr(line.as_str(), local, line.as_str().len());
    proof {
        assert(encode_utf8(s.skip(k)) =~= encode_utf8(s).subrange(local as int, blen(s) as int));
        lemma_encode_injective(rest@, s.skip(k));
    }
    let starts = grapheme_offsets(rest);
    if starts.len() > 1 {
        proof {
            assert(starts@[0] < starts@[1]);
        }
        offset + starts[1]
    } else {
        range.end
    }
}

/// The offset one grapheme before `offset`: 0 at the start, the end of
/// the previous line from a line's start.
pub fn prev_grapheme(buf: &Buffer, offset: usize) -> (r: usize)
    requires
        offset <= blen(buf@),
        is_cut(buf@, offset as int),
    ensures
        r == spec_prev_grapheme(buf@, offset as int),
        offset > 0 ==> r < offset,
        offset == 0 ==> r == 0,
{
    if offset == 0 {
        return 0;
    }
    let line_ix = buf.line_of_byte(offset);
    let range = buf.line_range(line_ix);
    if offset <= range.start {
        // At a line start: step back over the newline.
        return offset - 1;
    }
    let line = buf.line_text(line_ix);
    let local = offset - range.start;
    let ghost t = buf@;
    let ghost l = rope_line(t, line_ix as int);
    let ghost s = strip_nl(l);
    proof {
        assert(on_line(t, offset as int, line_ix as int));
        if l.len() > 0 && l.last() == '\n' {
            assert(l =~= l.drop_last() + seq!['\n']);
            lemma_encode_concat(l.drop_last(), seq!['\n']);
            assert(encode_utf8(seq!['\n']).len() == 1) by {
                crate::text::lemma_encode_push(Seq::<char>::empty(), '\n');
                assert(Seq::<char>::empty().push('\n') =~= seq!['\n']);
            }
        }
    }
    let ghost k = lemma_cut_in_line(t, offset as int, line_ix as int, range.start as int, l);
    proof {
        is_char_boundary_start_end_of_seq(encode_utf8(s));
        lemma_encode_split(s, k);
    }
    let head = substr(line.as_str(), 0, local);
    proof {
        assert(encode_utf8(s.take(k)) =~= encode_utf8(s).subrange(0, local as int));
        lemma_encode_injective(head@, s.take(k));
    }
    let starts = grapheme_offsets(head);
    if starts.len() > 0 {
        range.start + starts[starts.len() - 1]
    } else {
        range.start
    }
}

/// The start of the line holding `offset`.
pub fn line_start(buf: &Buffer, offset: usize) -> (r: usize)
    ensures
        r == rope_line_to_byte(
            buf@,
            rope_byte_to_line(
                buf@,
                if offset <= blen(buf@) {
                    offset as int
                } else {
                    blen(buf@) as int
                },
            ) as int,
        ),
{
    buf.line_range(buf.line_of_byte(offset)).start
}

/// The end of the line holding `offset`, its newline excluded.
pub fn line_end(buf: &Buffer, offset: usize) -> (r: usize)
    ensures
        ({
            let ix = rope_byte_to_line(
                buf@,
                if offset <= blen(buf@) {
                    offset as int
                } else {
                    blen(buf@) as int
                },
            ) as int;
            r == rope_line_to_byte(buf@, ix) + blen(strip_nl(rope_line(buf@, ix)))
        }),
{
    buf.line_range(buf.line_of_byte(offset)).end
}

/// The byte offsets where the word-boundary segments of a text start,
/// as `UnicodeSegmentation::split_word_bound_indices` reports them.
pub uninterp spec fn word_starts(s: Seq<char>) -> Seq<usize>;

/// `s.split_word_bound_indices()`, offsets only: the segments tile the
/// text, so the offsets rise strictly, start at 0, lie inside the text
/// and where characters start, and there are some exactly when the text
/// is not empty.
#[verifier::external_body]
fn word_offsets(s: &str) -> (r: Vec<usize>)
    ensures
        r@ == word_starts(s@),
        r@.len() > 0 <==> s@.len() > 0,
        r@.len() > 0 ==> r@[0] == 0,
        forall|i: int| 0 <= i < r@.len() ==> r@[i] < blen(s@),
        forall|i: int| 0 <= i < r@.len() ==> is_cut(s@, #[trigger] r@[i] as int),
        forall|i: int, j: int| 0 <= i < j < r@.len() ==> r@[i] < r@[j],
{
    s.split_word_bound_indices().map(|(i, _)| i).collect()
}

/// Whether `char::is_alphanumeric` holds of `c`.
pub uninterp spec fn alphanumeric(c: char) -> bool;

/// `char::is_alphanumeric`.
#[verifier::external_body]
fn is_alphanumeric(c: char) -> (r: bool)
    ensures
        r == alphanumeric(c),
{
    c.is_alphanumeric()
}

/// A segment is a word when some character of it is alphanumeric or `_`.
pub open spec fn is_word(s: Seq<char>) -> bool {
    exists|k: int| 0 <= k < s.len() && (alphanumeric(#[trigger] s[k]) || s[k] == '_')
}

/// Where segment `i` of `s` (split at `g`) ends.
pub open spec fn seg_end(s: Seq<char>, g: Seq<usize>, i: int) -> int {
    if i + 1 < g.len() {
        g[i + 1] as int
    } else {
        blen(s) as int
    }
}

/// The characters of segment `i`.
pub open spec fn segment(s: Seq<char>, g: Seq<usize>, i: int) -> Seq<char> {
    s.subrange(char_ix(s, g[i] as int) as int, char_ix(s, seg_end(s, g, i)) as int)
}

/// Where the first word from segment `i` on ends.
pub open spec fn first_word_end(s: Seq<char>, g: Seq<usize>, i: int) -> Option<int>
    decreases g.len() - i,
{
    if i < 0 || i >= g.len() {
        None
    } else if is_word(segment(s, g, i)) {
        Some(seg_end(s, g, i))
    } else {
        first_word_end(s, g, i + 1)
    }
}

/// Where the last word among the first `n` segments starts.
pub open spec fn last_word_start(s: Seq<char>, g: Seq<usize>, n: int) -> Option<int>
    decreases n,
{
    if n <= 0 {
        None
    } else if is_word(segment(s, g, n - 1)) {
        Some(g[n - 1] as int)
    } else {
        last_word_start(s, g, n - 1)
    }
}

/// The end of the first word after byte `offset`, or the end of the text.
pub open spec fn spec_next_word(t: Seq<char>, offset: int) -> int {
    let rest = t.skip(char_ix(t, offset) as int);
    match first_word_end(rest, word_starts(rest), 0) {
        Some(e) => offset + e,
        None => blen(t) as int,
    }
}

/// The start of the last word before byte `offset`, or 0.
pub open spec fn spec_prev_word(t: Seq<char>, offset: int) -> int {
    let head = t.take(char_ix(t, offset) as int);
    let g = word_starts(head);
    match last_word_start(head, g, g.len() as int) {
        Some(s) => s,
        None => 0,
    }
}

/// Whether `s` holds an alphanumeric character or `_`.
fn word_like(s: &str) -> (r: bool)
    ensures
        r == is_word(s@),
{
    let cs = chars_of(s);
    let mut k: usize = 0;
    while k < cs.len()
        invariant
            k <= cs@.len(),
            cs@ == s@,
            forall|j: int| 0 <= j < k ==> !(alphanumeric(#[trigger] cs@[j]) || cs@[j] == '_'),
        decreases cs@.len() - k,
    {
        if is_alphanumeric(cs[k]) || cs[k] == '_' {
            return true;
        }
        k += 1;
    }
    false
}

/// The characters of `s` between two cuts, as a slice.
fn cut_slice<'a>(s: &'a str, a: usize, b: usize) -> (r: &'a str)
    requires
        a <= b <= blen(s@),
        is_cut(s@, a as int),
        is_cut(s@, b as int),
    ensures
        r@ == s@.subrange(char_ix(s@, a as int) as int, char_ix(s@, b as int) as int),
{
    let ghost t = s@;
    let ghost ka = choose|k: int| 0 <= k <= t.len() && blen(t.take(k)) == a;
    let ghost kb = choose|k: int| 0 <= k <= t.len() && blen(t.take(k)) == b;
    proof {
        lemma_encode_split(t, ka);
        lemma_encode_split(t, kb);
        lemma_char_ix_at(t, ka);
        lemma_char_ix_at(t, kb);
        if kb < ka {
            lemma_prefix_blen_mono(t, kb, ka);
        }
    }
    let r = substr(s, a, b);
    proof {
        lemma_blen_subrange(t, ka, kb);
        assert(t.take(kb) =~= t.take(ka) + t.subrange(ka, kb));
        lemma_encode_concat(t.take(ka), t.subrange(ka, kb));
        assert(encode_utf8(t.subrange(ka, kb)) =~= encode_utf8(t).subrange(a as int, b as int));
        lemma_encode_injective(r@, t.subrange(ka, kb));
    }
    r
}

/// The end of the first word after `offset`, or the end of the text.
pub fn next_word(buf: &Buffer, offset: usize) -> (r: usize)
    requires
        offset <= blen(buf@),
        is_cut(buf@, offset as int),
    ensures
        r == spec_next_word(buf@, offset as int),
{
    let total = buf.len_bytes();
    let text = buf.text();
    let s = text.as_str();
    let len = s.len();
    let ghost t = buf@;
    proof {
        assert(t.take(t.len() as int) =~= t);
        assert(is_cut(t, blen(t) as int));
    }
    let rest = cut_slice(s, offset, len);
    proof {
        let k = choose|k: int| 0 <= k <= t.len() && blen(t.take(k)) == offset;
        lemma_char_ix_at(t, k);
        lemma_char_ix_at(t, t.len() as int);
        assert(rest@ =~= t.skip(char_ix(t, offset as int) as int));
        lemma_encode_split(t, k);
        assert(t.skip(k) =~= rest@);
    }
    let starts = word_offsets(rest);
    let rlen = rest.len();
    let mut i: usize = 0;
    while i < starts.len()
        invariant
            i <= starts@.len(),
            starts@ == word_starts(rest@),
            rlen == blen(rest@),
            forall|j: int| 0 <= j < starts@.len() ==> starts@[j] < blen(rest@),
            forall|j: int| 0 <= j < starts@.len() ==> is_cut(rest@, #[trigger] starts@[j] as int),
            forall|a: int, b: int| 0 <= a < b < starts@.len() ==> starts@[a] < starts@[b],
            first_word_end(rest@, starts@, 0) == first_word_end(rest@, starts@, i as int),
            offset + blen(rest@) == blen(t),
            blen(t) <= usize::MAX,
            t == buf@,
            len == blen(t),
            rest@ == t.skip(char_ix(t, offset as int) as int),
        decreases starts@.len() - i,
    {
        let end = if i + 1 < starts.len() {
            starts[i + 1]
        } else {
            rlen
        };
        proof {
            assert(rest@.take(rest@.len() as int) =~= rest@);
        }
        let seg = cut_slice(rest, starts[i], end);
        if word_like(seg) {
            return offset + end;
        }
        i += 1;
    }
    len
}

/// The start of the last word before `offset`, or 0.
pub fn prev_word(buf: &Buffer, offset: usize) -> (r: usize)
    requires
        offset <= blen(buf@),
        is_cut(buf@, offset as int),
    ensures
        r == spec_prev_word(buf@, offset as int),
{
    let total = buf.len_bytes();
    let text = buf.text();
    let ghost t = buf@;
    proof {
        assert(t.take(0) =~= Seq::<char>::empty());
        assert(is_cut(t, 0));
    }
    let head = cut_slice(text.as_str(), 0, offset);
    proof {
        lemma_char_ix_at(t, 0);
        assert(head@ =~= t.take(char_ix(t, offset as int) as int));
        let k = choose|k: int| 0 <= k <= t.len() && blen(t.take(k)) == offset;
        lemma_char_ix_at(t, k);
        lemma_prefix_blen_mono(t, k, t.len() as int);
    }
    let starts = word_offsets(head);
    let hlen = head.len();
    let mut result: usize = 0;
    let mut i: usize = 0;
    while i < starts.len()
        invariant
            i <= starts@.len(),
            starts@ == word_starts(head@),
            hlen == blen(head@),
            forall|j: int| 0 <= j < starts@.len() ==> starts@[j] < blen(head@),
            forall|j: int| 0 <= j < starts@.len() ==> is_cut(head@, #[trigger] starts@[j] as int),
            forall|a: int, b: int| 0 <= a < b < starts@.len() ==> starts@[a] < starts@[b],
            head@ == buf@.take(char_ix(buf@, offset as int) as int),
            result == match last_word_start(head@, starts@, i as int) {
                Some(s) => s,
                None => 0,
            },
        decreases starts@.len() - i,
    {
        let end = if i + 1 < starts.len() {
            starts[i + 1]
        } else {
            hlen
        };
        proof {
            assert(head@.take(head@.len() as int) =~= head@);
        }
        let seg = cut_slice(head, starts[i], end);
        if word_like(seg) {
            result = starts[i];
        }
        i += 1;
    }
    result
}

} // verus!
