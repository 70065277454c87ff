//! Diff engine: merges old and new text into one document with a change
//! map. Stripping the Deleted ranges from the merged text reproduces the
//! new text; stripping the Added ranges reproduces the old text.
use vstd::prelude::*;
use vstd::utf8::*;
use core::ops::Range;
use crate::editor::buffer::{blen, is_cut};
use crate::text::{lemma_encode_concat, push_str};

verus! {

#[derive(Clone, Copy, PartialEq, Eq, Debug, Structural)]
pub enum ChangeKind {
    Added,
    Deleted,
}

#[derive(PartialEq, Eq, Debug)]
pub struct Change {
    /// Byte range into `DiffDoc::text` (the merged document).
    pub range: Range<usize>,
    pub kind: ChangeKind,
}

impl Clone for Change {
    fn clone(&self) -> (r: Self)
        ensures
            r == *self,
    {
        Change { range: self.range.start..self.range.end, kind: self.kind }
    }
}

#[derive(PartialEq, Eq, Debug)]
pub struct DiffDoc {
    /// The new text with deleted runs spliced back in at their original
    /// positions.
    pub text: String,
    /// Non-overlapping, sorted by start. Empty means no changes.
    pub changes: Vec<Change>,
}

/// How a line of a line diff relates the two texts.
#[derive(Clone, Copy, PartialEq, Eq, Debug, Structural)]
pub enum LineTag {
    /// In both texts.
    Equal,
    /// Only in the new text.
    Insert,
    /// Only in the old text.
    Delete,
}

/// One line of a line diff, newline included.
pub struct LineChange {
    pub tag: LineTag,
    pub value: String,
}

/// The lines of a line diff as tags and texts.
pub open spec fn line_view(cs: Seq<LineChange>) -> Seq<(LineTag, Seq<char>)> {
    cs.map_values(|c: LineChange| (c.tag, c.value@))
}

/// The changes, in order, that `similar::TextDiff::from_lines` finds
/// between two texts.
pub uninterp spec fn line_diff(old: Seq<char>, new: Seq<char>) -> Seq<(LineTag, Seq<char>)>;

/// The texts of all lines, in order, but those tagged `skip`.
pub open spec fn side_text(cs: Seq<(LineTag, Seq<char>)>, skip: LineTag) -> Seq<char>
    decreases cs.len(),
{
    if cs.len() == 0 {
        Seq::empty()
    } else if cs.last().0 == skip {
        side_text(cs.drop_last(), skip)
    } else {
        side_text(cs.drop_last(), skip) + cs.last().1
    }
}

/// The texts of all lines, in order.
pub open spec fn merged(cs: Seq<(LineTag, Seq<char>)>) -> Seq<char>
    decreases cs.len(),
{
    if cs.len() == 0 {
        Seq::empty()
    } else {
        merged(cs.drop_last()) + cs.last().1
    }
}

/// The change kind a line of `tag` contributes.
pub open spec fn kind_of_tag(tag: LineTag) -> ChangeKind {
    if tag == LineTag::Insert {
        ChangeKind::Added
    } else {
        ChangeKind::Deleted
    }
}

/// The change map after one more line of `tag` at bytes `[start, end)`:
/// unchanged for an equal line, else a new range, or the last range
/// grown when it is of the same kind and ends where this line starts.
pub open spec fn step_changes(prev: Seq<Change>, tag: LineTag, start: int, end: int) -> Seq<Change> {
    let kind = kind_of_tag(tag);
    if tag == LineTag::Equal {
        prev
    } else if prev.len() > 0 && prev.last().kind == kind && prev.last().range.end == start {
        prev.drop_last().push(
            Change { range: Range { start: prev.last().range.start, end: end as usize }, kind },
        )
    } else {
        prev.push(Change { range: Range { start: start as usize, end: end as usize }, kind })
    }
}

/// The change map of the merged text: a range for each inserted or
/// deleted line, adjacent ranges of one kind merged into one.
pub open spec fn change_map(cs: Seq<(LineTag, Seq<char>)>) -> Seq<Change>
    decreases cs.len(),
{
    if cs.len() == 0 {
        Seq::empty()
    } else {
        let start = blen(merged(cs.drop_last())) as int;
        step_changes(change_map(cs.drop_last()), cs.last().0, start, start + blen(cs.last().1))
    }
}

/// `t` with the ranges of kind `k` taken out.
pub open spec fn without(t: Seq<u8>, chs: Seq<Change>, k: ChangeKind) -> Seq<u8>
    decreases chs.len(),
{
    if chs.len() == 0 {
        t
    } else {
        let c = chs.last();
        let head = without(t.take(c.range.start as int), chs.drop_last(), k);
        if c.kind == k {
            head + t.skip(c.range.end as int)
        } else {
            head + t.skip(c.range.start as int)
        }
    }
}

/// The ranges lie in order inside a text of `n` bytes, one after the
/// other.
pub open spec fn sorted_within(chs: Seq<Change>, n: int) -> bool {
    &&& forall|j: int| 0 <= j < chs.len() ==> (#[trigger] chs[j]).range.start <= chs[j].range.end
    &&& forall|i: int, j: int|
        0 <= i < j < chs.len() ==> (#[trigger] chs[i]).range.end <= (#[trigger] chs[j]).range.start
    &&& chs.len() > 0 ==> chs.last().range.end <= n
}

/// Each range starts and ends on a character boundary of `text`.
pub open spec fn cut_ends(chs: Seq<Change>, text: Seq<char>) -> bool {
    forall|j: int|
        0 <= j < chs.len() ==> is_cut(text, (#[trigger] chs[j]).range.start as int) && is_cut(
            text,
            chs[j].range.end as int,
        )
}

/// The ranges lie in order inside the text, one after the other, each
/// starting and ending on a character boundary.
#[verifier::opaque]
pub open spec fn ordered(chs: Seq<Change>, text: Seq<char>) -> bool {
    sorted_within(chs, blen(text) as int) && cut_ends(chs, text)
}

/// `similar::TextDiff::from_lines(old, new)`, its changes in order. The
/// lines it reports, all but the inserted ones, spell the old text, and
/// all but the deleted ones spell the new text.
#[verifier::external_body]
fn diff_lines(old: &str, new: &str) -> (r: Vec<LineChange>)
    ensures
        line_view(r@) == line_diff(old@, new@),
        side_text(line_view(r@), LineTag::Insert) == old@,
        side_text(line_view(r@), LineTag::Delete) == new@,
{
    let diff = similar::TextDiff::from_lines(old, new);
    let mut out = Vec::new();
    for op in diff.ops() {
        for change in diff.iter_changes(op) {
            let tag = match change.tag() {
                similar::ChangeTag::Equal => LineTag::Equal,
                similar::ChangeTag::Insert => LineTag::Insert,
                similar::ChangeTag::Delete => LineTag::Delete,
            };
            out.push(LineChange { tag, value: change.value().to_string() });
        }
    }
    out
}

proof fn lemma_blen_merged(cs: Seq<(LineTag, Seq<char>)>)
    ensures
        blen(merged(cs)) <= blen(side_text(cs, LineTag::Insert)) + blen(
            side_text(cs, LineTag::Delete),
        ),
    decreases cs.len(),
{
    if cs.len() > 0 {
        lemma_blen_merged(cs.drop_last());
        let p = cs.drop_last();
        lemma_encode_concat(merged(p), cs.last().1);
        lemma_encode_concat(side_text(p, LineTag::Insert), cs.last().1);
        lemma_encode_concat(side_text(p, LineTag::Delete), cs.last().1);
    }
}

/// The merged document of a line diff.
pub fn diff_doc_from(lines: &Vec<LineChange>) -> (r: DiffDoc)
    requires
        blen(merged(line_view(lines@))) <= usize::MAX,
    ensures
        r.text@ == merged(line_view(lines@)),
        r.changes@ == change_map(line_view(lines@)),
        ordered(r.changes@, r.text@),
        without(encode_utf8(r.text@), r.changes@, ChangeKind::Deleted) == encode_utf8(
            side_text(line_view(lines@), LineTag::Delete),
        ),
        without(encode_utf8(r.text@), r.changes@, ChangeKind::Added) == encode_utf8(
            side_text(line_view(lines@), LineTag::Insert),
        ),
{
    let ghost cs = line_view(lines@);
    let mut text = String::new();
    let mut changes: Vec<Change> = Vec::new();
    let mut i: usize = 0;
    proof {
        assert(cs.take(0) =~= Seq::<(LineTag, Seq<char>)>::empty());
        assert(text@ =~= Seq::<char>::empty());
        assert(encode_utf8(text@) =~= Seq::<u8>::empty());
        reveal(ordered);
    }
    while i < lines.len()
        invariant
            i <= lines@.len(),
            cs == line_view(lines@),
            blen(merged(cs)) <= usize::MAX,
            text@ == merged(cs.take(i as int)),
            changes@ == change_map(cs.take(i as int)),
            ordered(changes@, text@),
            without(encode_utf8(text@), changes@, ChangeKind::Deleted) == encode_utf8(
                side_text(cs.take(i as int), LineTag::Delete),
            ),
            without(encode_utf8(text@), changes@, ChangeKind::Added) == encode_utf8(
                side_text(cs.take(i as int), LineTag::Insert),
            ),
        decreases lines@.len() - i,
    {
        let line = &lines[i];
        let ghost t0 = text@;
        let ghost c0 = changes@;
        let ghost v = line.value@;
        let ghost pre = cs.take(i as int);
        let ghost next = cs.take(i + 1);
        proof {
            assert(next.drop_last() =~= pre);
            assert(next.last() == cs[i as int]);
            assert(cs[i as int] == (line.tag, line.value@));
            lemma_merged_prefix(cs, i as int + 1);
            lemma_encode_concat(t0, v);
            lemma_encode_concat(side_text(pre, LineTag::Delete), v);
            lemma_encode_concat(side_text(pre, LineTag::Insert), v);
            lemma_ordered_last(c0, t0);
            lemma_step_ordered(t0, c0, line.tag, v);
            lemma_step_without(t0, c0, line.tag, v, ChangeKind::Deleted);
            lemma_step_without(t0, c0, line.tag, v, ChangeKind::Added);
        }
        let start = text.as_str().len();
        push_str(&mut text, line.value.as_str());
        let end = text.as_str().len();
        match line.tag {
            LineTag::Equal => {},
            LineTag::Insert | LineTag::Delete => {
                let kind = match line.tag {
                    LineTag::Insert => ChangeKind::Added,
                    _ => ChangeKind::Deleted,
                };
                let n = changes.len();
                if n > 0 && changes[n - 1].kind == kind && changes[n - 1].range.end == start {
                    let last = changes.pop().unwrap();
                    changes.push(Change { range: last.range.start..end, kind });
                } else {
                    changes.push(Change { range: start..end, kind });
                }
            },
        }
        proof {
            assert(changes@ =~= step_changes(c0, line.tag, start as int, end as int));
        }
        i += 1;
    }
    proof {
        assert(cs.take(lines@.len() as int) =~= cs);
    }
    DiffDoc { text, changes }
}

proof fn lemma_ordered_last(c0: Seq<Change>, t0: Seq<char>)
    requires
        ordered(c0, t0),
    ensures
        c0.len() > 0 ==> c0.last().range.start <= c0.last().range.end <= blen(t0),
{
    reveal(ordered);
}

/// Text appended after a cut leaves it a cut, and both ends of the
/// appended text are cuts.
proof fn lemma_cuts_grow(t0: Seq<char>, v: Seq<char>)
    ensures
        forall|x: int| is_cut(t0, x) ==> #[trigger] is_cut(t0 + v, x),
        is_cut(t0 + v, blen(t0) as int),
        is_cut(t0 + v, blen(t0 + v) as int),
{
    let t1 = t0 + v;
    assert forall|j: int| 0 <= j <= t0.len() implies #[trigger] t1.take(j) == t0.take(j) by {
        assert(t1.take(j) =~= t0.take(j));
    }
    assert(t1.take(t1.len() as int) =~= t1);
    assert(t0.take(t0.len() as int) =~= t0);
    assert(t1.take(t0.len() as int) == t0);
    assert forall|x: int| is_cut(t0, x) implies #[trigger] is_cut(t1, x) by {
        let k = choose|k: int| 0 <= k <= t0.len() && blen(t0.take(k)) == x;
        assert(t1.take(k) == t0.take(k));
    }
}

/// One more line keeps the change map sorted inside the text.
proof fn lemma_step_sorted(c0: Seq<Change>, tag: LineTag, start: int, end: int)
    requires
        sorted_within(c0, start),
        0 <= start <= end <= usize::MAX,
    ensures
        sorted_within(step_changes(c0, tag, start, end), end),
{
    let c1 = step_changes(c0, tag, start, end);
    let kind = kind_of_tag(tag);
    if tag == LineTag::Equal {
    } else if c0.len() > 0 && c0.last().kind == kind && c0.last().range.end == start {
        let n = c0.len() - 1;
        assert(c1.len() == c0.len());
        assert(c1[n].range.start == c0[n].range.start);
        assert(c1[n].range.end == end);
        assert forall|i: int, j: int| 0 <= i < j < c1.len() implies (#[trigger] c1[i]).range.end
            <= (#[trigger] c1[j]).range.start by {
            assert(c1[i] == c0[i]);
            if j < n {
                assert(c1[j] == c0[j]);
            }
        }
        assert forall|j: int| 0 <= j < c1.len() implies (#[trigger] c1[j]).range.start
            <= c1[j].range.end by {
            if j < n {
                assert(c1[j] == c0[j]);
            }
        }
    } else {
        let n = c0.len() as int;
        assert(c1.len() == n + 1);
        assert(c1[n].range.start == start);
        assert(c1[n].range.end == end);
        assert forall|i: int, j: int| 0 <= i < j < c1.len() implies (#[trigger] c1[i]).range.end
            <= (#[trigger] c1[j]).range.start by {
            assert(c1[i] == c0[i]);
            if j < n {
                assert(c1[j] == c0[j]);
            } else if i < n - 1 {
                assert(c0[i].range.end <= c0[n - 1].range.start);
                assert(c0[n - 1].range.start <= c0[n - 1].range.end);
            }
        }
        assert forall|j: int| 0 <= j < c1.len() implies (#[trigger] c1[j]).range.start
            <= c1[j].range.end by {
            if j < n {
                assert(c1[j] == c0[j]);
            }
        }
    }
}

/// One more line keeps every range end on a character boundary.
proof fn lemma_step_cuts(t0: Seq<char>, c0: Seq<Change>, tag: LineTag, v: Seq<char>)
    requires
        cut_ends(c0, t0),
        blen(t0) + blen(v) <= usize::MAX,
    ensures
        cut_ends(step_changes(c0, tag, blen(t0) as int, blen(t0) + blen(v) as int), t0 + v),
{
    let t1 = t0 + v;
    let start = blen(t0) as int;
    let end = start + blen(v) as int;
    let c1 = step_changes(c0, tag, start, end);
    lemma_encode_concat(t0, v);
    lemma_cuts_grow(t0, v);
    assert forall|j: int| 0 <= j < c1.len() implies is_cut(t1, (#[trigger] c1[j]).range.start as int)
        && is_cut(t1, c1[j].range.end as int) by {
        if tag == LineTag::Equal || j < c1.len() - 1 {
            assert(c1[j] == c0[j]);
            assert(is_cut(t0, c0[j].range.start as int));
            assert(is_cut(t0, c0[j].range.end as int));
        } else if c1.len() == c0.len() {
            assert(c1[j].range.start == c0[j].range.start);
            assert(is_cut(t0, c0[j].range.start as int));
        }
    }
}

/// One more line keeps the change map in order.
proof fn lemma_step_ordered(t0: Seq<char>, c0: Seq<Change>, tag: LineTag, v: Seq<char>)
    requires
        ordered(c0, t0),
        blen(t0) + blen(v) <= usize::MAX,
    ensures
        ordered(step_changes(c0, tag, blen(t0) as int, blen(t0) + blen(v) as int), t0 + v),
{
    reveal(ordered);
    lemma_encode_concat(t0, v);
    lemma_step_sorted(c0, tag, blen(t0) as int, blen(t0) + blen(v) as int);
    lemma_step_cuts(t0, c0, tag, v);
}

/// One more line keeps both reconstructions: the line's text joins each
/// side it belongs to.
proof fn lemma_step_without(
    t0: Seq<char>,
    c0: Seq<Change>,
    tag: LineTag,
    v: Seq<char>,
    k: ChangeKind,
)
    requires
        c0.len() > 0 ==> c0.last().range.start <= c0.last().range.end <= blen(t0),
        blen(t0) + blen(v) <= usize::MAX,
    ensures
        without(
            encode_utf8(t0 + v),
            step_changes(c0, tag, blen(t0) as int, blen(t0) + blen(v) as int),
            k,
        ) == if tag != LineTag::Equal && kind_of_tag(tag) == k {
            without(encode_utf8(t0), c0, k)
        } else {
            without(encode_utf8(t0), c0, k) + encode_utf8(v)
        },
{
    let start = blen(t0) as int;
    let end = start + blen(v) as int;
    let c1 = step_changes(c0, tag, start, end);
    lemma_encode_concat(t0, v);
    let e0 = encode_utf8(t0);
    let e1 = encode_utf8(t0 + v);
    let ev = encode_utf8(v);
    assert(e1 == e0 + ev);
    assert(e1.skip(end) =~= Seq::<u8>::empty());
    assert(e1.take(start) =~= e0);
    assert(e1.skip(start) =~= ev);
    let w0 = without(e0, c0, k);
    // with the ranges as they were, the text after them grows by `v`
    assert(without(e1, c0, k) == w0 + ev) by {
        if c0.len() > 0 {
            let c = c0.last();
            assert(e1.take(c.range.start as int) =~= e0.take(c.range.start as int));
            assert(e1.skip(c.range.end as int) =~= e0.skip(c.range.end as int) + ev);
            assert(e1.skip(c.range.start as int) =~= e0.skip(c.range.start as int) + ev);
        }
    }
    if tag != LineTag::Equal {
        let kind = kind_of_tag(tag);
        if c0.len() > 0 && c0.last().kind == kind && c0.last().range.end == start {
            let c = c0.last();
            assert(c1.drop_last() =~= c0.drop_last());
            assert(c1.last().range.start == c.range.start);
            assert(e0.skip(start) =~= Seq::<u8>::empty());
            assert(e1.take(c.range.start as int) =~= e0.take(c.range.start as int));
            assert(e1.skip(c.range.start as int) =~= e0.skip(c.range.start as int) + ev);
            let h = without(e0.take(c.range.start as int), c0.drop_last(), k);
            if kind == k {
                assert(w0 == h + e0.skip(start));
                assert(without(e1, c1, k) == h + e1.skip(end));
            } else {
                assert(w0 == h + e0.skip(c.range.start as int));
                assert(without(e1, c1, k) == h + e1.skip(c.range.start as int));
            }
        } else {
            assert(c1.drop_last() =~= c0);
            assert(without(e1, c1, k) == without(e1.take(start), c0, k) + if kind == k {
                e1.skip(end)
            } else {
                e1.skip(start)
            });
        }
    }
}

proof fn lemma_merged_prefix(cs: Seq<(LineTag, Seq<char>)>, i: int)
    requires
        0 <= i <= cs.len(),
    ensures
        blen(merged(cs.take(i))) <= blen(merged(cs)),
    decreases cs.len() - i,
{
    if i < cs.len() {
        lemma_merged_prefix(cs, i + 1);
        let p = cs.take(i + 1);
        assert(p.drop_last() =~= cs.take(i));
        lemma_encode_concat(merged(cs.take(i)), p.last().1);
    } else {
        assert(cs.take(i) =~= cs);
    }
}

/// Diffs `old` against `new` line by line into one merged document.
pub fn diff_doc(old: &str, new: &str) -> (r: DiffDoc)
    requires
        blen(old@) + blen(new@) <= usize::MAX,
    ensures
        r.text@ == merged(line_diff(old@, new@)),
        r.changes@ == change_map(line_diff(old@, new@)),
        ordered(r.changes@, r.text@),
        without(encode_utf8(r.text@), r.changes@, ChangeKind::Deleted) == encode_utf8(new@),
        without(encode_utf8(r.text@), r.changes@, ChangeKind::Added) == encode_utf8(old@),
{
    let lines = diff_lines(old, new);
    proof {
        lemma_blen_merged(line_view(lines@));
    }
    diff_doc_from(&lines)
}

} // verus!
