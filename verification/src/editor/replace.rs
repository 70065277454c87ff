//! Replace, as one contiguous edit. Pure; the shell applies the result.
use vstd::prelude::*;
use vstd::utf8::*;
use vstd::string::*;
use core::ops::Range;
use crate::text::{push_str, sbytes, substr};
use crate::editor::find::{exact_case, find_matches, lemma_scan_ok, matches_ok, spec_find_matches};

verus! {

broadcast use vstd::utf8::encode_utf8_valid_utf8, vstd::utf8::is_char_boundary_start_end_of_seq;

/// One contiguous replacement, plus what to select afterwards.
#[derive(Debug, PartialEq, Eq)]
pub struct ReplaceEdit {
    /// Bytes of the document to replace.
    pub range: Range<usize>,
    pub replacement: String,
    /// Selection after the edit, in post-edit coordinates.
    pub select: Range<usize>,
    /// How many matches were rewritten.
    pub count: usize,
}

/// The bytes from `at` through the last match, with every match
/// rewritten as `w`.
pub open spec fn rewrite(t: Seq<u8>, ms: Seq<Range<usize>>, w: Seq<u8>, at: int) -> Seq<u8>
    decreases ms.len(),
{
    if ms.len() == 0 {
        seq![]
    } else {
        t.subrange(at, ms[0].start as int) + w + rewrite(t, ms.drop_first(), w, ms[0].end as int)
    }
}

/// The whole document after every match of `query` is replaced by
/// `with`.
pub open spec fn spec_replaced(text: &str, query: &str, with: &str) -> Seq<u8> {
    let t = text.spec_bytes();
    let ms = spec_find_matches(text, query);
    if ms.len() == 0 {
        t
    } else {
        rewrite(t, ms, with.spec_bytes(), 0) + t.subrange(ms.last().end as int, t.len() as int)
    }
}

/// The edit `replace_all` makes stays within `usize`.
pub open spec fn replace_all_fits(text: &str, query: &str, with: &str) -> bool {
    let ms = spec_find_matches(text, query);
    ms.len() > 0 ==> ms[0].start + rewrite(
        text.spec_bytes(),
        ms,
        with.spec_bytes(),
        ms[0].start as int,
    ).len() <= usize::MAX
}

proof fn lemma_rewrite_prefix(t: Seq<u8>, ms: Seq<Range<usize>>, w: Seq<u8>, a: int)
    requires
        ms.len() > 0,
        0 <= a <= ms[0].start <= t.len(),
    ensures
        rewrite(t, ms, w, a) == t.subrange(a, ms[0].start as int) + rewrite(
            t,
            ms,
            w,
            ms[0].start as int,
        ),
{
    let f = ms[0].start as int;
    let rest = rewrite(t, ms.drop_first(), w, ms[0].end as int);
    assert(t.subrange(f, f) =~= Seq::<u8>::empty());
    assert(rewrite(t, ms, w, f) =~= w + rest);
    assert(rewrite(t, ms, w, a) =~= t.subrange(a, f) + w + rest);
}

/// Rewrite every match as a single edit spanning first match to last.
///
/// One edit rather than one per match, so that one undo takes back the
/// whole Replace All; the span is trimmed to the affected region. The
/// replacement is never re-scanned, so replacing `a` with `aa`
/// terminates.
pub fn replace_all(text: &str, query: &str, with: &str) -> (r: Option<ReplaceEdit>)
    requires
        replace_all_fits(text, query, with),
    ensures
        r is None <==> spec_find_matches(text, query).len() == 0,
        r matches Some(e) ==> {
            let ms = spec_find_matches(text, query);
            let t = text.spec_bytes();
            &&& e.range == (Range { start: ms[0].start, end: ms.last().end })
            &&& sbytes(e.replacement) == rewrite(t, ms, with.spec_bytes(), ms[0].start as int)
            &&& e.select == (Range {
                start: ms[0].start,
                end: (ms[0].start + sbytes(e.replacement).len()) as usize,
            })
            &&& e.count == ms.len()
            // Applying the edit yields the document with every match replaced.
            &&& t.subrange(0, e.range.start as int) + sbytes(e.replacement) + t.subrange(
                e.range.end as int,
                t.len() as int,
            ) == spec_replaced(text, query, with)
        },
{
    let ghost t = text.spec_bytes();
    let ghost w = with.spec_bytes();
    let matches = find_matches(text, query);
    let ghost ms = matches@;
    if matches.len() == 0 {
        return None;
    }
    let first = matches[0].start;
    let last = matches[matches.len() - 1].end;
    let mut out = String::new();
    let mut at = first;
    let mut i: usize = 0;
    assert(ms.skip(0) =~= ms);
    assert(sbytes(out) =~= Seq::<u8>::empty());
    assert(sbytes(out) + rewrite(t, ms.skip(0), w, at as int) =~= rewrite(t, ms, w, first as int));
    while i < matches.len()
        invariant
            matches@ == ms,
            ms.len() > 0,
            t == text.spec_bytes(),
            w == with.spec_bytes(),
            matches_ok(t, query.spec_bytes(), exact_case(query), ms, 0),
            i <= ms.len(),
            at == if i == 0 {
                ms[0].start
            } else {
                ms[i - 1].end
            },
            at <= t.len(),
            i < ms.len() ==> at <= ms[i as int].start,
            is_char_boundary(t, at as int),
            sbytes(out) + rewrite(t, ms.skip(i as int), w, at as int) == rewrite(
                t,
                ms,
                w,
                first as int,
            ),
        decreases ms.len() - i,
    {
        let ghost rest = ms.skip(i as int);
        assert(rest[0] == ms[i as int]);
        assert(rest.drop_first() =~= ms.skip(i + 1));
        let m_start = matches[i].start;
        let m_end = matches[i].end;
        push_str(&mut out, substr(text, at, m_start));
        push_str(&mut out, with);
        assert(rewrite(t, rest, w, at as int) == t.subrange(at as int, m_start as int) + w
            + rewrite(t, ms.skip(i + 1), w, m_end as int));
        at = m_end;
        i += 1;
        if i < matches.len() {
            assert(ms[i - 1].end <= ms[i as int].start);
        }
    }
    assert(ms.skip(i as int) =~= seq![]);
    assert(sbytes(out) =~= rewrite(t, ms, w, first as int));
    let ghost repl = sbytes(out);
    proof {
        lemma_rewrite_prefix(t, ms, w, 0);
        assert(t.subrange(0, 0) =~= Seq::<u8>::empty());
        assert(t.subrange(0, first as int) + repl =~= rewrite(t, ms, w, 0));
    }
    let len = out.as_str().len();
    Some(ReplaceEdit { range: first..last, select: first..first + len, replacement: out, count: matches.len() })
}

/// Rewrite one already-located match.
pub fn replace_one(_text: &str, at: Range<usize>, with: &str) -> (r: ReplaceEdit)
    requires
        at.start + with.spec_bytes().len() <= usize::MAX,
    ensures
        r.range == at,
        r.replacement@ == with@,
        r.select == (Range { start: at.start, end: (at.start + with.spec_bytes().len()) as usize }),
        r.count == 1,
{
    let len = with.len();
    ReplaceEdit {
        range: at.start..at.end,
        select: at.start..at.start + len,
        replacement: with.to_string(),
        count: 1,
    }
}

} // verus!
