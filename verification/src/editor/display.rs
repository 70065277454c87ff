//! The hybrid-WYSIWYG display transform: the one place where a buffer
//! offset and a rendered offset differ, on purpose.
//!
//! Per line, given the style spans and the current selection, this
//! produces the display text (markers hidden or replaced when their
//! span is not touched by the selection) plus a segment map that the
//! shell uses to convert between source and display offsets.
use vstd::prelude::*;
use vstd::utf8::*;
use vstd::string::*;
use core::ops::Range;
use crate::text::{boundary, push_str, sbytes, substr};
use crate::editor::spans::{StyleKind, StyleSpan};

verus! {

broadcast use vstd::utf8::encode_utf8_valid_utf8, vstd::utf8::is_char_boundary_start_end_of_seq;

/// Which source edge an ambiguous display boundary resolves to: hidden
/// opening markers bias Right (after the marker), closing markers bias
/// Left (before it).
#[derive(Debug, Clone, Copy, PartialEq, Eq)]
pub enum Bias {
    Left,
    Right,
}

#[derive(Debug, Clone, Copy, PartialEq, Eq)]
pub enum SegKind {
    Verbatim,
    Hidden(Bias),
    Replacement,
}

#[derive(Debug, PartialEq, Eq)]
pub struct Seg {
    /// Absolute source byte range.
    pub src: Range<usize>,
    /// Byte range within `DisplayLine::text`.
    pub disp: Range<usize>,
    pub kind: SegKind,
    /// Set on checkbox replacements: the current checked state.
    pub toggle: Option<bool>,
}

impl Clone for Seg {
    fn clone(&self) -> (r: Self)
        ensures
            r == *self,
    {
        Seg {
            src: self.src.start..self.src.end,
            disp: self.disp.start..self.disp.end,
            kind: self.kind,
            toggle: self.toggle,
        }
    }
}

#[derive(Debug, PartialEq, Eq)]
pub struct DisplayLine {
    pub text: String,
    pub segs: Vec<Seg>,
}

/// The glyph a replaced marker shows.
#[derive(Debug, Clone, Copy, PartialEq, Eq)]
pub enum Glyph {
    Bullet,
    Checked,
    Unchecked,
    Bar,
}

#[derive(Debug, Clone, Copy, PartialEq, Eq)]
pub enum Action {
    Hide(Bias),
    Replace { glyph: Glyph, toggle: Option<bool> },
}

/// A display directive: a source byte range and what to do with it.
#[derive(Debug, PartialEq, Eq)]
pub struct Directive {
    pub range: Range<usize>,
    pub action: Action,
}

pub open spec fn glyph_chars(g: Glyph) -> Seq<char> {
    match g {
        Glyph::Bullet => seq!['\u{2022}', ' '],
        Glyph::Checked => seq!['\u{2713}'],
        Glyph::Unchecked => seq!['\u{25cb}'],
        Glyph::Bar => seq!['\u{258d}'],
    }
}

fn glyph_str(g: Glyph) -> (r: &'static str)
    ensures
        r@ == glyph_chars(g),
{
    match g {
        Glyph::Bullet => {
            proof {
                reveal_strlit("• ");
            }
            "• "
        },
        Glyph::Checked => {
            proof {
                reveal_strlit("✓");
            }
            "✓"
        },
        Glyph::Unchecked => {
            proof {
                reveal_strlit("○");
            }
            "○"
        },
        Glyph::Bar => {
            proof {
                reveal_strlit("▍");
            }
            "▍"
        },
    }
}

/// A span is revealed (shown as source) when the selection touches it,
/// ends included.
pub open spec fn spec_revealed(span: Range<usize>, sel: Range<usize>) -> bool {
    span.start <= sel.end && sel.start <= span.end
}

fn revealed(span: &Range<usize>, sel: &Range<usize>) -> (r: bool)
    ensures
        r == spec_revealed(*span, *sel),
{
    span.start <= sel.end && sel.start <= span.end
}

/// The length of the run of byte `c` starting at `l`.
pub open spec fn run_fwd(b: Seq<u8>, l: int, c: u8) -> int
    decreases b.len() - l,
{
    if 0 <= l < b.len() && b[l] == c {
        1 + run_fwd(b, l + 1, c)
    } else {
        0
    }
}

/// The length of the run of byte `c` ending at `e`.
pub open spec fn run_back(b: Seq<u8>, e: int, c: u8) -> int
    decreases e,
{
    if 0 < e <= b.len() && b[e - 1] == c {
        1 + run_back(b, e - 1, c)
    } else {
        0
    }
}

pub open spec fn has2(b: Seq<u8>, i: int, x: u8, y: u8) -> bool {
    0 <= i && i + 2 <= b.len() && b[i] == x && b[i + 1] == y
}

/// Bytes of opening delimiter at local offset `l`.
pub open spec fn spec_leading_delim(kind: StyleKind, b: Seq<u8>, l: int) -> int {
    match kind {
        StyleKind::Strong => if has2(b, l, 42, 42) || has2(b, l, 95, 95) {
            2
        } else {
            0
        },
        StyleKind::Emphasis => if 0 <= l < b.len() && (b[l] == 42 || b[l] == 95) {
            1
        } else {
            0
        },
        StyleKind::Strikethrough => if has2(b, l, 126, 126) {
            2
        } else {
            0
        },
        StyleKind::InlineCode => run_fwd(b, l, 96),
        _ => 0,
    }
}

/// Bytes of closing delimiter ending at local offset `e`.
pub open spec fn spec_trailing_delim(kind: StyleKind, b: Seq<u8>, e: int) -> int {
    match kind {
        StyleKind::Strong => if has2(b, e - 2, 42, 42) || has2(b, e - 2, 95, 95) {
            2
        } else {
            0
        },
        StyleKind::Emphasis => if 0 < e <= b.len() && (b[e - 1] == 42 || b[e - 1] == 95) {
            1
        } else {
            0
        },
        StyleKind::Strikethrough => if has2(b, e - 2, 126, 126) {
            2
        } else {
            0
        },
        StyleKind::InlineCode => run_back(b, e, 96),
        _ => 0,
    }
}

proof fn lemma_run_fwd_bound(b: Seq<u8>, l: int, c: u8)
    requires
        0 <= l <= b.len(),
    ensures
        0 <= run_fwd(b, l, c) <= b.len() - l,
        forall|k: int| l <= k < l + run_fwd(b, l, c) ==> b[k] == c,
    decreases b.len() - l,
{
    if l < b.len() && b[l] == c {
        lemma_run_fwd_bound(b, l + 1, c);
    }
}

proof fn lemma_run_back_bound(b: Seq<u8>, e: int, c: u8)
    requires
        0 <= e <= b.len(),
    ensures
        0 <= run_back(b, e, c) <= e,
        forall|k: int| e - run_back(b, e, c) <= k < e ==> b[k] == c,
    decreases e,
{
    if 0 < e && b[e - 1] == c {
        lemma_run_back_bound(b, e - 1, c);
    }
}

fn count_fwd(b: &[u8], l: usize, c: u8) -> (n: usize)
    requires
        l <= b@.len(),
    ensures
        n == run_fwd(b@, l as int, c),
        n <= b@.len() - l,
{
    proof {
        lemma_run_fwd_bound(b@, l as int, c);
    }
    let mut i = l;
    while i < b.len() && b[i] == c
        invariant
            l <= i <= b@.len(),
            run_fwd(b@, l as int, c) == (i - l) + run_fwd(b@, i as int, c),
        decreases b@.len() - i,
    {
        i += 1;
    }
    i - l
}

fn count_back(b: &[u8], e: usize, c: u8) -> (n: usize)
    requires
        e <= b@.len(),
    ensures
        n == run_back(b@, e as int, c),
        n <= e,
{
    proof {
        lemma_run_back_bound(b@, e as int, c);
    }
    let mut i = e;
    while i > 0 && b[i - 1] == c
        invariant
            i <= e <= b@.len(),
            run_back(b@, e as int, c) == (e - i) + run_back(b@, i as int, c),
        decreases i,
    {
        i -= 1;
    }
    e - i
}

fn at2(b: &[u8], i: usize, x: u8, y: u8) -> (r: bool)
    ensures
        r == has2(b@, i as int, x, y),
{
    i < b.len() && b.len() - i >= 2 && b[i] == x && b[i + 1] == y
}

/// Bytes of opening delimiter at local offset `l`, read from the source.
pub fn leading_delim(kind: &StyleKind, line: &str, l: usize) -> (n: usize)
    requires
        l <= line.spec_bytes().len(),
    ensures
        n == spec_leading_delim(*kind, line.spec_bytes(), l as int),
        n <= line.spec_bytes().len() - l,
{
    let b = line.as_bytes();
    match kind {
        StyleKind::Strong => if at2(b, l, 42u8, 42u8) || at2(b, l, 95u8, 95u8) {
            2
        } else {
            0
        },
        StyleKind::Emphasis => if l < b.len() && (b[l] == 42u8 || b[l] == 95u8) {
            1
        } else {
            0
        },
        StyleKind::Strikethrough => if at2(b, l, 126u8, 126u8) {
            2
        } else {
            0
        },
        StyleKind::InlineCode => count_fwd(b, l, 96u8),
        _ => 0,
    }
}

/// Bytes of closing delimiter ending at local offset `e`.
pub fn trailing_delim(kind: &StyleKind, line: &str, e: usize) -> (n: usize)
    requires
        e <= line.spec_bytes().len(),
    ensures
        n == spec_trailing_delim(*kind, line.spec_bytes(), e as int),
        n <= e,
{
    let b = line.as_bytes();
    match kind {
        StyleKind::Strong => if e >= 2 && (at2(b, e - 2, 42u8, 42u8) || at2(b, e - 2, 95u8, 95u8)) {
            2
        } else {
            0
        },
        StyleKind::Emphasis => if e > 0 && (b[e - 1] == 42u8 || b[e - 1] == 95u8) {
            1
        } else {
            0
        },
        StyleKind::Strikethrough => if e >= 2 && at2(b, e - 2, 126u8, 126u8) {
            2
        } else {
            0
        },
        StyleKind::InlineCode => count_back(b, e, 96u8),
        _ => 0,
    }
}

/// The index of the byte that closes a group opened before `i` at
/// nesting `depth` (`open`/`close` adjust the depth), or `b.len()`
/// when the group never closes.
pub open spec fn close_of(b: Seq<u8>, i: int, depth: int, open: u8, close: u8) -> int
    decreases b.len() - i,
{
    if i >= b.len() || i < 0 {
        b.len() as int
    } else if b[i] == open {
        close_of(b, i + 1, depth + 1, open, close)
    } else if b[i] == close {
        if depth == 1 {
            i
        } else {
            close_of(b, i + 1, depth - 1, open, close)
        }
    } else {
        close_of(b, i + 1, depth, open, close)
    }
}

/// If `b` is exactly `[text](dest)`, the offset of the `]` closing the
/// text part.
pub open spec fn spec_scan_link(b: Seq<u8>) -> Option<int> {
    if b.len() == 0 || b[0] != 91 {
        None
    } else {
        let t = close_of(b, 1, 1, 91, 93);
        if t >= b.len() || t + 1 >= b.len() || b[t + 1] != 40 {
            None
        } else {
            let j = close_of(b, t + 2, 1, 40, 41);
            if j >= b.len() || j + 1 != b.len() {
                None
            } else {
                Some(t)
            }
        }
    }
}

proof fn lemma_close_of_range(b: Seq<u8>, i: int, depth: int, open: u8, close: u8)
    requires
        0 <= i,
        depth >= 1,
    ensures
        i <= close_of(b, i, depth, open, close) <= b.len() || (i > b.len() && close_of(
            b,
            i,
            depth,
            open,
            close,
        ) == b.len()),
        close_of(b, i, depth, open, close) < b.len() ==> b[close_of(b, i, depth, open, close)]
            == close,
    decreases b.len() - i,
{
    if i >= b.len() {
    } else if b[i] == open {
        lemma_close_of_range(b, i + 1, depth + 1, open, close);
    } else if b[i] == close {
        if depth != 1 {
            lemma_close_of_range(b, i + 1, depth - 1, open, close);
        }
    } else {
        lemma_close_of_range(b, i + 1, depth, open, close);
    }
}

/// Scans forward from `start` at nesting `depth` for the matching
/// close byte.
fn find_close(b: &[u8], start: usize, open: u8, close: u8) -> (r: usize)
    requires
        1 <= start <= b@.len(),
    ensures
        r == close_of(b@, start as int, 1, open, close),
        start <= r <= b@.len(),
{
    proof {
        lemma_close_of_range(b@, start as int, 1, open, close);
    }
    let mut depth: usize = 1;
    let mut i = start;
    while i < b.len()
        invariant
            1 <= start <= i <= b@.len(),
            1 <= depth <= i - start + 1,
            close_of(b@, start as int, 1, open, close) == close_of(
                b@,
                i as int,
                depth as int,
                open,
                close,
            ),
        decreases b@.len() - i,
    {
        if b[i] == open {
            depth += 1;
        } else if b[i] == close {
            if depth == 1 {
                return i;
            }
            depth -= 1;
        }
        i += 1;
    }
    i
}

/// If `s` is exactly `[text](dest)`, the byte offset of the `]`
/// closing the text part.
pub fn scan_link(s: &str) -> (r: Option<usize>)
    ensures
        r matches Some(t) ==> spec_scan_link(s.spec_bytes()) == Some(t as int),
        r is None ==> spec_scan_link(s.spec_bytes()) is None,
{
    let b = s.as_bytes();
    if b.len() == 0 || b[0] != 91u8 {
        return None;
    }
    let t = find_close(b, 1, 91u8, 93u8);
    if t >= b.len() || t + 1 >= b.len() || b[t + 1] != 40u8 {
        return None;
    }
    let j = find_close(b, t + 2, 40u8, 41u8);
    if j >= b.len() || j + 1 != b.len() {
        return None;
    }
    Some(t)
}


pub open spec fn mk_dir(a: int, z: int, action: Action) -> Directive {
    Directive { range: Range { start: a as usize, end: z as usize }, action }
}

/// Whether the span is skipped outright: off this line, or touched by
/// the selection.
pub open spec fn span_skipped(len: int, ls: int, span: StyleSpan, sel: Range<usize>) -> bool {
    span.range.end < ls || span.range.start > ls + len || spec_revealed(span.range, sel)
}

pub open spec fn starts_on(len: int, ls: int, span: StyleSpan) -> bool {
    ls <= span.range.start < ls + len
}

pub open spec fn ends_on(len: int, ls: int, span: StyleSpan) -> bool {
    ls < span.range.end <= ls + len
}

/// The directives one span contributes to a line whose bytes are `b`
/// and which starts at document offset `ls`.
pub open spec fn span_directives(b: Seq<u8>, ls: int, span: StyleSpan, sel: Range<usize>) -> Seq<
    Directive,
> {
    let st = span.range.start as int;
    let en = span.range.end as int;
    let l = st - ls;
    let e = en - ls;
    let s_on = starts_on(b.len() as int, ls, span);
    let e_on = ends_on(b.len() as int, ls, span);
    if span_skipped(b.len() as int, ls, span, sel) {
        seq![]
    } else {
        match span.kind {
            StyleKind::Strong | StyleKind::Emphasis | StyleKind::Strikethrough
            | StyleKind::InlineCode => {
                let n = spec_leading_delim(span.kind, b, l);
                let m = spec_trailing_delim(span.kind, b, e);
                (if s_on && n > 0 {
                    seq![mk_dir(st, st + n, Action::Hide(Bias::Right))]
                } else {
                    seq![]
                }) + (if e_on && m > 0 {
                    seq![mk_dir(en - m, en, Action::Hide(Bias::Left))]
                } else {
                    seq![]
                })
            },
            StyleKind::Link => {
                if s_on && e_on && spec_scan_link(b.subrange(l, e)) is Some {
                    let t = spec_scan_link(b.subrange(l, e))->0;
                    seq![
                        mk_dir(st, st + 1, Action::Hide(Bias::Right)),
                        mk_dir(st + t, en, Action::Hide(Bias::Left)),
                    ]
                } else {
                    seq![]
                }
            },
            StyleKind::Heading(_) => {
                let h = run_fwd(b, l, 35);
                if s_on && 1 <= h <= 6 {
                    let n = if l + h < b.len() && b[l + h] == 32 {
                        h + 1
                    } else {
                        h
                    };
                    seq![mk_dir(st, st + n, Action::Hide(Bias::Right))]
                } else {
                    seq![]
                }
            },
            StyleKind::ListMarker => {
                if s_on && e_on && (b[l] == 45 || b[l] == 42 || b[l] == 43) {
                    seq![mk_dir(st, en, Action::Replace { glyph: Glyph::Bullet, toggle: None })]
                } else {
                    seq![]
                }
            },
            StyleKind::TaskMarker(checked) => {
                if s_on && e_on {
                    seq![
                        mk_dir(
                            st,
                            en,
                            Action::Replace {
                                glyph: if checked {
                                    Glyph::Checked
                                } else {
                                    Glyph::Unchecked
                                },
                                toggle: Some(checked),
                            },
                        ),
                    ]
                } else {
                    seq![]
                }
            },
            StyleKind::QuoteMarker => {
                if s_on && e_on {
                    seq![mk_dir(st, en, Action::Replace { glyph: Glyph::Bar, toggle: None })]
                } else {
                    seq![]
                }
            },
            _ => seq![],
        }
    }
}

/// Where the transform reads the line through a string slice, the
/// offsets it slices at are character boundaries (the conditions under
/// which reading the span does not panic).
pub open spec fn span_readable(line: &str, ls: int, span: StyleSpan, sel: Range<usize>) -> bool {
    let b = line.spec_bytes();
    let l = span.range.start - ls;
    let e = span.range.end - ls;
    let s_on = starts_on(b.len() as int, ls, span);
    let e_on = ends_on(b.len() as int, ls, span);
    span_skipped(b.len() as int, ls, span, sel) || match span.kind {
        StyleKind::Strong | StyleKind::Emphasis | StyleKind::Strikethrough
        | StyleKind::InlineCode => (s_on ==> boundary(line, l)) && (e_on ==> boundary(line, e)),
        StyleKind::Link => (s_on && e_on) ==> (l <= e && boundary(line, l) && boundary(line, e)),
        StyleKind::Heading(_) => s_on ==> boundary(line, l),
        _ => true,
    }
}

/// Every span's directives, in span order.
pub open spec fn raw_directives(b: Seq<u8>, ls: int, spans: Seq<StyleSpan>, sel: Range<usize>) -> Seq<
    Directive,
>
    decreases spans.len(),
{
    if spans.len() == 0 {
        seq![]
    } else {
        raw_directives(b, ls, spans.drop_last(), sel) + span_directives(
            b,
            ls,
            spans.last(),
            sel,
        )
    }
}

/// The directive order: by start, the outer (longer) one first.
pub open spec fn dir_lt(a: Directive, b: Directive) -> bool {
    a.range.start < b.range.start || (a.range.start == b.range.start && a.range.end > b.range.end)
}

/// Stable insertion of `x` into `s`: after every element it does not
/// precede.
pub open spec fn dir_insert(s: Seq<Directive>, x: Directive) -> Seq<Directive>
    decreases s.len(),
{
    if s.len() == 0 {
        seq![x]
    } else if dir_lt(x, s.last()) {
        dir_insert(s.drop_last(), x).push(s.last())
    } else {
        s.push(x)
    }
}

/// Stable sort of the directives by `dir_lt`.
pub open spec fn dir_sort(s: Seq<Directive>) -> Seq<Directive>
    decreases s.len(),
{
    if s.len() == 0 {
        seq![]
    } else {
        dir_insert(dir_sort(s.drop_last()), s.last())
    }
}

/// Clamp each directive to the line `[ls, le)`, dropping empty ones and
/// any that start inside an earlier kept one.
pub open spec fn dir_keep(s: Seq<Directive>, ls: int, le: int, last_end: int) -> Seq<Directive>
    decreases s.len(),
{
    if s.len() == 0 {
        seq![]
    } else {
        let d = s[0];
        let st = if d.range.start >= ls {
            d.range.start as int
        } else {
            ls
        };
        let en = if d.range.end <= le {
            d.range.end as int
        } else {
            le
        };
        if st >= en || st < last_end {
            dir_keep(s.drop_first(), ls, le, last_end)
        } else {
            seq![mk_dir(st, en, d.action)] + dir_keep(s.drop_first(), ls, le, en)
        }
    }
}

/// The directives a line is displayed with.
pub open spec fn spec_directives(b: Seq<u8>, ls: int, spans: Seq<StyleSpan>, sel: Range<usize>) -> Seq<
    Directive,
> {
    dir_keep(dir_sort(raw_directives(b, ls, spans, sel)), ls, ls + b.len(), ls)
}

fn push_span_directives(
    line: &str,
    line_start: usize,
    span: &StyleSpan,
    selection: &Range<usize>,
    out: &mut Vec<Directive>,
)
    requires
        line_start + line.spec_bytes().len() <= usize::MAX,
        span_readable(line, line_start as int, *span, *selection),
    ensures
        final(out)@ == old(out)@ + span_directives(
            line.spec_bytes(),
            line_start as int,
            *span,
            *selection,
        ),
{
    let ghost b = line.spec_bytes();
    let ghost sd = span_directives(b, line_start as int, *span, *selection);
    let line_end = line_start + line.len();
    if span.range.end < line_start || span.range.start > line_end {
        assert(sd =~= seq![]);
        return ;
    }
    if revealed(&span.range, selection) {
        assert(sd =~= seq![]);
        return ;
    }
    let start_on_line = span.range.start >= line_start && span.range.start < line_end;
    let end_on_line = span.range.end > line_start && span.range.end <= line_end;
    match &span.kind {
        StyleKind::Strong | StyleKind::Emphasis | StyleKind::Strikethrough
        | StyleKind::InlineCode => {
            if start_on_line {
                let l = span.range.start - line_start;
                let n = leading_delim(&span.kind, line, l);
                if n > 0 {
                    out.push(
                        Directive {
                            range: span.range.start..span.range.start + n,
                            action: Action::Hide(Bias::Right),
                        },
                    );
                }
            }
            if end_on_line {
                let e = span.range.end - line_start;
                let n = trailing_delim(&span.kind, line, e);
                if n > 0 {
                    out.push(
                        Directive {
                            range: span.range.end - n..span.range.end,
                            action: Action::Hide(Bias::Left),
                        },
                    );
                }
            }
            assert(final(out)@ =~= old(out)@ + sd);
        },
        StyleKind::Link => {
            if start_on_line && end_on_line {
                let l = span.range.start - line_start;
                let e = span.range.end - line_start;
                let inner = substr(line, l, e);
                assert(inner.spec_bytes() == b.subrange(l as int, e as int));
                if let Some(text_end) = scan_link(inner) {
                    proof {
                        lemma_scan_link_bound(inner.spec_bytes());
                    }
                    out.push(
                        Directive {
                            range: span.range.start..span.range.start + 1,
                            action: Action::Hide(Bias::Right),
                        },
                    );
                    out.push(
                        Directive {
                            range: span.range.start + text_end..span.range.end,
                            action: Action::Hide(Bias::Left),
                        },
                    );
                }
            }
            assert(final(out)@ =~= old(out)@ + sd);
        },
        StyleKind::Heading(_) => {
            if start_on_line {
                let l = span.range.start - line_start;
                let bytes = line.as_bytes();
                let hashes = count_fwd(bytes, l, 35u8);
                if 1 <= hashes && hashes <= 6 {
                    let mut n = hashes;
                    if l + hashes < bytes.len() && bytes[l + hashes] == 32u8 {
                        n += 1;
                    }
                    out.push(
                        Directive {
                            range: span.range.start..span.range.start + n,
                            action: Action::Hide(Bias::Right),
                        },
                    );
                }
            }
            assert(final(out)@ =~= old(out)@ + sd);
        },
        StyleKind::ListMarker => {
            if start_on_line && end_on_line {
                let l = span.range.start - line_start;
                let bytes = line.as_bytes();
                if bytes[l] == 45u8 || bytes[l] == 42u8 || bytes[l] == 43u8 {
                    out.push(
                        Directive {
                            range: span.range.start..span.range.end,
                            action: Action::Replace { glyph: Glyph::Bullet, toggle: None },
                        },
                    );
                }
            }
            assert(final(out)@ =~= old(out)@ + sd);
        },
        StyleKind::TaskMarker(checked) => {
            if start_on_line && end_on_line {
                out.push(
                    Directive {
                        range: span.range.start..span.range.end,
                        action: Action::Replace {
                            glyph: if *checked {
                                Glyph::Checked
                            } else {
                                Glyph::Unchecked
                            },
                            toggle: Some(*checked),
                        },
                    },
                );
            }
            assert(final(out)@ =~= old(out)@ + sd);
        },
        StyleKind::QuoteMarker => {
            if start_on_line && end_on_line {
                out.push(
                    Directive {
                        range: span.range.start..span.range.end,
                        action: Action::Replace { glyph: Glyph::Bar, toggle: None },
                    },
                );
            }
            assert(final(out)@ =~= old(out)@ + sd);
        },
        _ => {
            assert(sd =~= seq![]);
            assert(final(out)@ =~= old(out)@ + sd);
        },
    }
}

proof fn lemma_scan_link_bound(b: Seq<u8>)
    ensures
        spec_scan_link(b) matches Some(t) ==> 0 <= t < b.len(),
{
    if b.len() > 0 && b[0] == 91 {
        lemma_close_of_range(b, 1, 1, 91, 93);
    }
}

fn dir_less(a: &Directive, b: &Directive) -> (r: bool)
    ensures
        r == dir_lt(*a, *b),
{
    a.range.start < b.range.start || (a.range.start == b.range.start && a.range.end > b.range.end)
}

fn insert_directive(v: &mut Vec<Directive>, x: Directive)
    ensures
        final(v)@ == dir_insert(old(v)@, x),
{
    let ghost orig = v@;
    let mut j = v.len();
    assert(orig.take(j as int) =~= orig);
    assert(orig.skip(j as int) =~= seq![]);
    while j > 0 && dir_less(&x, &v[j - 1])
        invariant
            j <= v@.len(),
            v@ == orig,
            dir_insert(orig, x) == dir_insert(orig.take(j as int), x) + orig.skip(j as int),
        decreases j,
    {
        let ghost t = orig.take(j as int);
        assert(t.drop_last() =~= orig.take(j - 1));
        assert(t.last() == orig[j - 1]);
        assert(orig.skip(j - 1) =~= seq![orig[j - 1]] + orig.skip(j as int));
        assert(dir_insert(t, x) == dir_insert(orig.take(j - 1), x).push(orig[j - 1]));
        assert(dir_insert(t, x) + orig.skip(j as int) =~= dir_insert(orig.take(j - 1), x)
            + orig.skip(j - 1));
        j -= 1;
    }
    assert(dir_insert(orig.take(j as int), x) =~= orig.take(j as int).push(x)) by {
        if j > 0 {
            assert(orig.take(j as int).last() == orig[j - 1]);
        }
    }
    v.insert(j, x);
    assert(v@ =~= orig.take(j as int).push(x) + orig.skip(j as int));
}

/// The directives for one line: every span's, stably sorted (outer
/// first at equal starts), clamped to the line, empties and overlaps
/// dropped (first wins).
fn collect_directives(
    line: &str,
    line_start: usize,
    spans: &[StyleSpan],
    selection: &Range<usize>,
) -> (r: Vec<Directive>)
    requires
        line_start + line.spec_bytes().len() <= usize::MAX,
        forall|i: int|
            0 <= i < spans@.len() ==> span_readable(line, line_start as int, #[trigger] spans@[i], *selection),
    ensures
        r@ == spec_directives(line.spec_bytes(), line_start as int, spans@, *selection),
{
    let ghost b = line.spec_bytes();
    let line_end = line_start + line.len();
    let mut raw: Vec<Directive> = Vec::new();
    let mut i: usize = 0;
    while i < spans.len()
        invariant
            i <= spans@.len(),
            line_start + b.len() <= usize::MAX,
            b == line.spec_bytes(),
            forall|k: int|
                0 <= k < spans@.len() ==> span_readable(line, line_start as int, #[trigger] spans@[k], *selection),
            raw@ == raw_directives(b, line_start as int, spans@.take(i as int), *selection),
        decreases spans@.len() - i,
    {
        push_span_directives(line, line_start, &spans[i], selection, &mut raw);
        assert(spans@.take(i + 1).drop_last() =~= spans@.take(i as int));
        i += 1;
    }
    assert(spans@.take(i as int) =~= spans@);
    let ghost raw_all = raw@;
    let mut sorted: Vec<Directive> = Vec::new();
    let mut k: usize = 0;
    while k < raw.len()
        invariant
            k <= raw@.len(),
            raw@ == raw_all,
            sorted@ == dir_sort(raw_all.take(k as int)),
        decreases raw@.len() - k,
    {
        let d = Directive { range: raw[k].range.start..raw[k].range.end, action: raw[k].action };
        assert(raw_all.take(k + 1).drop_last() =~= raw_all.take(k as int));
        insert_directive(&mut sorted, d);
        k += 1;
    }
    assert(raw_all.take(k as int) =~= raw_all);
    let ghost srt = sorted@;
    let mut result: Vec<Directive> = Vec::new();
    let mut last_end = line_start;
    let mut j: usize = 0;
    assert(srt.skip(0) =~= srt);
    assert(result@ + dir_keep(srt, line_start as int, line_end as int, line_start as int) =~= dir_keep(
        srt,
        line_start as int,
        line_end as int,
        line_start as int,
    ));
    while j < sorted.len()
        invariant
            j <= sorted@.len(),
            sorted@ == srt,
            line_start <= last_end <= line_end,
            line_end == line_start + b.len(),
            result@ + dir_keep(srt.skip(j as int), line_start as int, line_end as int, last_end as int)
                == dir_keep(srt, line_start as int, line_end as int, line_start as int),
        decreases sorted@.len() - j,
    {
        assert(srt.skip(j as int).drop_first() =~= srt.skip(j + 1));
        assert(srt.skip(j as int)[0] == srt[j as int]);
        let start = if sorted[j].range.start >= line_start {
            sorted[j].range.start
        } else {
            line_start
        };
        let end = if sorted[j].range.end <= line_end {
            sorted[j].range.end
        } else {
            line_end
        };
        if start >= end || start < last_end {
        } else {
            let ghost before = result@;
            last_end = end;
            result.push(Directive { range: start..end, action: sorted[j].action });
            assert(result@ =~= before + seq![mk_dir(start as int, end as int, sorted@[j as int].action)]);
        }
        j += 1;
    }
    assert(srt.skip(j as int) =~= seq![]);
    assert(srt.skip(0) =~= srt);
    result
}

proof fn lemma_glyph_len(g: Glyph)
    ensures
        1 <= encode_utf8(glyph_chars(g)).len() <= 4,
{
    reveal_with_fuel(encode_utf8, 3);
    let c = glyph_chars(g);
    assert(c.drop_first().len() <= 1);
    if c.len() == 2 {
        assert(c.drop_first().drop_first() =~= Seq::<char>::empty());
    } else {
        assert(c.drop_first() =~= Seq::<char>::empty());
    }
}

/// The directive ranges are ordered, disjoint, non-empty and inside
/// `[lo, hi]`, the first starting at or after `lo`.
pub open spec fn dirs_ordered(ds: Seq<Directive>, lo: int, hi: int) -> bool {
    &&& forall|i: int|
        0 <= i < ds.len() ==> lo <= (#[trigger] ds[i]).range.start < ds[i].range.end <= hi
    &&& forall|i: int, j: int|
        0 <= i < j < ds.len() ==> (#[trigger] ds[i]).range.end <= (#[trigger] ds[j]).range.start
}

proof fn lemma_dir_keep_ordered(s: Seq<Directive>, ls: int, le: int, last_end: int)
    requires
        ls <= last_end,
    ensures
        dirs_ordered(dir_keep(s, ls, le, last_end), last_end, le),
    decreases s.len(),
{
    if s.len() > 0 {
        let d = s[0];
        let st = if d.range.start >= ls {
            d.range.start as int
        } else {
            ls
        };
        let en = if d.range.end <= le {
            d.range.end as int
        } else {
            le
        };
        if st >= en || st < last_end {
            lemma_dir_keep_ordered(s.drop_first(), ls, le, last_end);
        } else {
            lemma_dir_keep_ordered(s.drop_first(), ls, le, en);
            let rest = dir_keep(s.drop_first(), ls, le, en);
            let all = seq![mk_dir(st, en, d.action)] + rest;
            assert forall|i: int, j: int| 0 <= i < j < all.len() implies (#[trigger] all[i]).range.end
                <= (#[trigger] all[j]).range.start by {
                if i > 0 {
                    assert(all[i] == rest[i - 1]);
                }
                assert(all[j] == rest[j - 1]);
            }
            assert forall|i: int| 0 <= i < all.len() implies last_end <= (
            #[trigger] all[i]).range.start < all[i].range.end <= le by {
                if i > 0 {
                    assert(all[i] == rest[i - 1]);
                }
            }
        }
    }
}

/// Every directive endpoint is a character boundary of the line.
pub open spec fn dirs_on_boundaries(line: &str, ls: int, ds: Seq<Directive>) -> bool {
    forall|i: int|
        0 <= i < ds.len() ==> boundary(line, (#[trigger] ds[i]).range.start - ls) && boundary(
            line,
            ds[i].range.end - ls,
        )
}

pub open spec fn mk_seg(src_a: int, src_z: int, disp_a: int, disp_z: int, kind: SegKind, toggle: Option<bool>) -> Seg {
    Seg {
        src: Range { start: src_a as usize, end: src_z as usize },
        disp: Range { start: disp_a as usize, end: disp_z as usize },
        kind,
        toggle,
    }
}

/// Appends the source bytes `[from, to)` verbatim, when non-empty.
pub open spec fn verbatim(b: Seq<u8>, ls: int, from: int, to: int, text: Seq<u8>, segs: Seq<Seg>) -> (Seq<u8>, Seq<Seg>) {
    if from < to {
        (
            text + b.subrange(from - ls, to - ls),
            segs.push(mk_seg(from, to, text.len() as int, text.len() + (to - from), SegKind::Verbatim, None)),
        )
    } else {
        (text, segs)
    }
}

/// The display text and segment map of a line, rendered from its
/// directives left to right.
pub open spec fn render(b: Seq<u8>, ls: int, ds: Seq<Directive>, cursor: int, text: Seq<u8>, segs: Seq<Seg>) -> (Seq<u8>, Seq<Seg>)
    decreases ds.len(),
{
    if ds.len() == 0 {
        let (t1, s1) = verbatim(b, ls, cursor, ls + b.len(), text, segs);
        if s1.len() == 0 {
            (t1, seq![mk_seg(ls, ls, 0, 0, SegKind::Verbatim, None)])
        } else {
            (t1, s1)
        }
    } else {
        let d = ds[0];
        let (t1, s1) = verbatim(b, ls, cursor, d.range.start as int, text, segs);
        let (t2, s2) = match d.action {
            Action::Hide(bias) => (
                t1,
                s1.push(mk_seg(d.range.start as int, d.range.end as int, t1.len() as int, t1.len() as int, SegKind::Hidden(bias), None)),
            ),
            Action::Replace { glyph, toggle } => {
                let g = encode_utf8(glyph_chars(glyph));
                (
                    t1 + g,
                    s1.push(mk_seg(d.range.start as int, d.range.end as int, t1.len() as int, (t1.len() + g.len()) as int, SegKind::Replacement, toggle)),
                )
            },
        };
        render(b, ls, ds.drop_first(), d.range.end as int, t2, s2)
    }
}

/// The display line for `line`, which starts at document offset `ls`.
pub open spec fn spec_display_line(line: &str, ls: int, spans: Seq<StyleSpan>, sel: Range<usize>) -> (Seq<u8>, Seq<Seg>) {
    let b = line.spec_bytes();
    render(b, ls, spec_directives(b, ls, spans, sel), ls, seq![], seq![])
}

fn push_verbatim(
    line: &str,
    line_start: usize,
    from: usize,
    to: usize,
    text: &mut String,
    segs: &mut Vec<Seg>,
)
    requires
        line_start <= from,
        to <= line_start + line.spec_bytes().len(),
        from < to ==> boundary(line, from - line_start) && boundary(line, to - line_start),
        sbytes(*old(text)).len() + (to - from) <= usize::MAX,
    ensures
        (sbytes(*final(text)), final(segs)@) == verbatim(
            line.spec_bytes(),
            line_start as int,
            from as int,
            to as int,
            sbytes(*old(text)),
            old(segs)@,
        ),
{
    if from < to {
        let disp_start = text.as_str().len();
        let piece = substr(line, from - line_start, to - line_start);
        push_str(text, piece);
        let disp_end = text.as_str().len();
        segs.push(
            Seg {
                src: from..to,
                disp: disp_start..disp_end,
                kind: SegKind::Verbatim,
                toggle: None,
            },
        );
    }
}

/// The display text and segment map of one source line.
pub fn display_line(line: &str, line_start: usize, spans: &[StyleSpan], selection: Range<usize>) -> (r: DisplayLine)
    requires
        line_start + line.spec_bytes().len() <= usize::MAX,
        4 * line.spec_bytes().len() <= usize::MAX,
        forall|i: int|
            0 <= i < spans@.len() ==> span_readable(line, line_start as int, #[trigger] spans@[i], selection),
        spans_on_boundaries(line, line_start as int, spans@),
    ensures
        (sbytes(r.text), r.segs@) == spec_display_line(line, line_start as int, spans@, selection),
{
    let ghost b = line.spec_bytes();
    proof {
        lemma_directives_on_boundaries(line, line_start as int, spans@, selection);
    }
    let line_end = line_start + line.len();
    let directives = collect_directives(line, line_start, spans, &selection);
    let ghost ds = directives@;
    proof {
        lemma_dir_keep_ordered(dir_sort(raw_directives(b, line_start as int, spans@, selection)), line_start as int, line_end as int, line_start as int);
    }
    let mut text = String::new();
    let mut segs: Vec<Seg> = Vec::new();
    let mut cursor = line_start;
    let mut i: usize = 0;
    assert(ds.skip(0) =~= ds);
    assert(boundary(line, 0));
    assert(boundary(line, b.len() as int));
    while i < directives.len()
        invariant
            i <= ds.len(),
            directives@ == ds,
            b == line.spec_bytes(),
            line_end == line_start + b.len(),
            4 * b.len() <= usize::MAX,
            dirs_ordered(ds, line_start as int, line_end as int),
            dirs_on_boundaries(line, line_start as int, ds),
            line_start <= cursor <= line_end,
            boundary(line, cursor - line_start),
            i < ds.len() ==> cursor <= ds[i as int].range.start,
            sbytes(text).len() <= 4 * (cursor - line_start),
            render(b, line_start as int, ds, line_start as int, seq![], seq![])
                == render(b, line_start as int, ds.skip(i as int), cursor as int, sbytes(text), segs@),
        decreases ds.len() - i,
    {
        let ghost rest = ds.skip(i as int);
        assert(rest[0] == ds[i as int]);
        assert(rest.drop_first() =~= ds.skip(i + 1));
        let d_start = directives[i].range.start;
        let d_end = directives[i].range.end;
        let action = directives[i].action;
        push_verbatim(line, line_start, cursor, d_start, &mut text, &mut segs);
        let disp_start = text.as_str().len();
        match action {
            Action::Hide(bias) => {
                segs.push(
                    Seg {
                        src: d_start..d_end,
                        disp: disp_start..disp_start,
                        kind: SegKind::Hidden(bias),
                        toggle: None,
                    },
                );
            },
            Action::Replace { glyph, toggle } => {
                proof {
                    lemma_glyph_len(glyph);
                }
                push_str(&mut text, glyph_str(glyph));
                let disp_end = text.as_str().len();
                segs.push(
                    Seg {
                        src: d_start..d_end,
                        disp: disp_start..disp_end,
                        kind: SegKind::Replacement,
                        toggle,
                    },
                );
            },
        }
        cursor = d_end;
        i += 1;
    }
    push_verbatim(line, line_start, cursor, line_end, &mut text, &mut segs);
    if segs.len() == 0 {
        segs.push(
            Seg {
                src: line_start..line_start,
                disp: 0..0,
                kind: SegKind::Verbatim,
                toggle: None,
            },
        );
    }
    assert(ds.skip(i as int) =~= seq![]);
    DisplayLine { text, segs }
}

/// Source offset -> display offset over a segment map.
pub open spec fn spec_src_to_disp(segs: Seq<Seg>, src: int, text_len: int) -> int
    decreases segs.len(),
{
    if segs.len() == 0 {
        text_len
    } else {
        let seg = segs[0];
        if src < seg.src.start {
            seg.disp.start as int
        } else if src <= seg.src.end {
            match seg.kind {
                SegKind::Verbatim => seg.disp.start + (src - seg.src.start),
                SegKind::Hidden(_) => seg.disp.start as int,
                SegKind::Replacement => if src == seg.src.start {
                    seg.disp.start as int
                } else {
                    seg.disp.end as int
                },
            }
        } else {
            spec_src_to_disp(segs.drop_first(), src, text_len)
        }
    }
}

/// The source -> display mapping stays within `usize`.
pub open spec fn src_to_disp_fits(segs: Seq<Seg>, src: int) -> bool
    decreases segs.len(),
{
    if segs.len() == 0 {
        true
    } else {
        let seg = segs[0];
        if src < seg.src.start {
            true
        } else if src <= seg.src.end {
            seg.kind == SegKind::Verbatim ==> seg.disp.start + (src - seg.src.start) <= usize::MAX
        } else {
            src_to_disp_fits(segs.drop_first(), src)
        }
    }
}

/// Display offset -> source offset over a segment map. `cand` is the
/// source end of a verbatim segment that ends exactly at `disp`, and
/// `fallback` what an offset past every segment resolves to.
pub open spec fn spec_disp_to_src(segs: Seq<Seg>, disp: int, cand: Option<int>, fallback: int) -> int
    decreases segs.len(),
{
    if segs.len() == 0 {
        match cand {
            Some(c) => c,
            None => fallback,
        }
    } else {
        let seg = segs[0];
        let rest = segs.drop_first();
        if disp < seg.disp.start {
            match cand {
                Some(c) => c,
                None => seg.src.start as int,
            }
        } else {
            match seg.kind {
                SegKind::Verbatim => if disp < seg.disp.end {
                    seg.src.start + (disp - seg.disp.start)
                } else if disp == seg.disp.end {
                    spec_disp_to_src(rest, disp, Some(seg.src.end as int), fallback)
                } else {
                    spec_disp_to_src(rest, disp, cand, fallback)
                },
                SegKind::Hidden(bias) => if disp == seg.disp.start {
                    match bias {
                        Bias::Right => seg.src.end as int,
                        Bias::Left => seg.src.start as int,
                    }
                } else {
                    spec_disp_to_src(rest, disp, cand, fallback)
                },
                SegKind::Replacement => if disp == seg.disp.start {
                    seg.src.start as int
                } else if disp <= seg.disp.end {
                    seg.src.end as int
                } else {
                    spec_disp_to_src(rest, disp, cand, fallback)
                },
            }
        }
    }
}

/// The display -> source mapping stays within `usize`.
pub open spec fn disp_to_src_fits(segs: Seq<Seg>, disp: int) -> bool
    decreases segs.len(),
{
    if segs.len() == 0 {
        true
    } else {
        let seg = segs[0];
        if disp < seg.disp.start {
            true
        } else if seg.kind == SegKind::Verbatim && disp < seg.disp.end {
            seg.src.start + (disp - seg.disp.start) <= usize::MAX
        } else {
            disp_to_src_fits(segs.drop_first(), disp)
        }
    }
}

pub open spec fn segs_fallback(segs: Seq<Seg>) -> int {
    if segs.len() == 0 {
        0
    } else {
        segs.last().src.end as int
    }
}

/// The display offset of source offset `src`.
pub fn src_to_disp(dl: &DisplayLine, src: usize) -> (r: usize)
    requires
        src_to_disp_fits(dl.segs@, src as int),
        sbytes(dl.text).len() <= usize::MAX,
    ensures
        r == spec_src_to_disp(dl.segs@, src as int, sbytes(dl.text).len() as int),
{
    let ghost segs = dl.segs@;
    let ghost tl = sbytes(dl.text).len() as int;
    let mut i: usize = 0;
    assert(segs.skip(0) =~= segs);
    while i < dl.segs.len()
        invariant
            i <= segs.len(),
            dl.segs@ == segs,
            tl == sbytes(dl.text).len(),
            src_to_disp_fits(segs.skip(i as int), src as int),
            spec_src_to_disp(segs, src as int, tl) == spec_src_to_disp(
                segs.skip(i as int),
                src as int,
                tl,
            ),
        decreases segs.len() - i,
    {
        let seg = &dl.segs[i];
        assert(segs.skip(i as int)[0] == segs[i as int]);
        assert(segs.skip(i as int).drop_first() =~= segs.skip(i + 1));
        if src < seg.src.start {
            return seg.disp.start;
        }
        if src <= seg.src.end {
            return match seg.kind {
                SegKind::Verbatim => seg.disp.start + (src - seg.src.start),
                SegKind::Hidden(_) => seg.disp.start,
                SegKind::Replacement => {
                    if src == seg.src.start {
                        seg.disp.start
                    } else {
                        seg.disp.end
                    }
                },
            };
        }
        i += 1;
    }
    assert(segs.skip(i as int) =~= seq![]);
    dl.text.as_str().len()
}

/// The source offset of display offset `disp`. A verbatim segment
/// ending exactly at `disp` is only a candidate: a following zero-width
/// hidden segment at the same display point wins and resolves by its
/// bias, to the content side of the marker.
pub fn disp_to_src(dl: &DisplayLine, disp: usize) -> (r: usize)
    requires
        disp_to_src_fits(dl.segs@, disp as int),
    ensures
        r == spec_disp_to_src(dl.segs@, disp as int, None, segs_fallback(dl.segs@)),
{
    let ghost segs = dl.segs@;
    let ghost fb = segs_fallback(segs);
    let mut candidate: Option<usize> = None;
    let mut i: usize = 0;
    assert(segs.skip(0) =~= segs);
    while i < dl.segs.len()
        invariant
            i <= segs.len(),
            dl.segs@ == segs,
            fb == segs_fallback(segs),
            disp_to_src_fits(segs.skip(i as int), disp as int),
            spec_disp_to_src(segs, disp as int, None, fb) == spec_disp_to_src(
                segs.skip(i as int),
                disp as int,
                match candidate {
                    Some(c) => Some(c as int),
                    None => None,
                },
                fb,
            ),
        decreases segs.len() - i,
    {
        let seg = &dl.segs[i];
        assert(segs.skip(i as int)[0] == segs[i as int]);
        assert(segs.skip(i as int).drop_first() =~= segs.skip(i + 1));
        if disp < seg.disp.start {
            return match candidate {
                Some(c) => c,
                None => seg.src.start,
            };
        }
        match seg.kind {
            SegKind::Verbatim => {
                if disp < seg.disp.end {
                    return seg.src.start + (disp - seg.disp.start);
                }
                if disp == seg.disp.end {
                    candidate = Some(seg.src.end);
                }
            },
            SegKind::Hidden(bias) => {
                if disp == seg.disp.start {
                    return match bias {
                        Bias::Right => seg.src.end,
                        Bias::Left => seg.src.start,
                    };
                }
            },
            SegKind::Replacement => {
                if disp == seg.disp.start {
                    return seg.src.start;
                }
                if disp <= seg.disp.end {
                    return seg.src.end;
                }
            },
        }
        i += 1;
    }
    assert(segs.skip(i as int) =~= seq![]);
    match candidate {
        Some(c) => c,
        None => match dl.segs.last() {
            Some(seg) => seg.src.end,
            None => 0,
        },
    }
}

/// The shape every produced segment map has: ranges ordered left to
/// right in both coordinates, verbatim segments as long on screen as in
/// the source, and never two verbatim segments in a row.
pub open spec fn segs_wf(segs: Seq<Seg>) -> bool {
    &&& forall|k: int|
        0 <= k < segs.len() ==> (#[trigger] segs[k]).src.start <= segs[k].src.end
            && segs[k].disp.start <= segs[k].disp.end
    &&& forall|k: int|
        0 <= k < segs.len() && (#[trigger] segs[k]).kind == SegKind::Verbatim ==> segs[k].src.end
            - segs[k].src.start == segs[k].disp.end - segs[k].disp.start
    &&& forall|i: int, j: int|
        0 <= i < j < segs.len() ==> (#[trigger] segs[i]).src.end <= (#[trigger] segs[j]).src.start
            && segs[i].disp.end <= segs[j].disp.start
    &&& forall|i: int, j: int|
        0 <= i && j == i + 1 && j < segs.len() && (#[trigger] segs[j]).kind == SegKind::Verbatim
            ==> (#[trigger] segs[i]).kind != SegKind::Verbatim
}

proof fn lemma_push_wf(segs: Seq<Seg>, s: Seg)
    requires
        segs_wf(segs),
        s.src.start <= s.src.end,
        s.disp.start <= s.disp.end,
        s.kind == SegKind::Verbatim ==> s.src.end - s.src.start == s.disp.end - s.disp.start,
        s.kind == SegKind::Verbatim && segs.len() > 0 ==> segs.last().kind != SegKind::Verbatim,
        forall|k: int|
            0 <= k < segs.len() ==> (#[trigger] segs[k]).src.end <= s.src.start && segs[k].disp.end
                <= s.disp.start,
    ensures
        segs_wf(segs.push(s)),
{
    let n = segs.push(s);
    assert forall|i: int, j: int| 0 <= i < j < n.len() implies (#[trigger] n[i]).src.end <= (
    #[trigger] n[j]).src.start && n[i].disp.end <= n[j].disp.start by {
        assert(n[i] == segs[i]);
        if j < segs.len() {
            assert(n[j] == segs[j]);
        }
    }
    assert forall|i: int, j: int|
        0 <= i && j == i + 1 && j < n.len() && (#[trigger] n[j]).kind == SegKind::Verbatim implies (
        #[trigger] n[i]).kind != SegKind::Verbatim by {
        if j < segs.len() {
            assert(n[j] == segs[j]);
        }
        assert(n[i] == segs[i]);
    }
    assert forall|k: int| 0 <= k < n.len() implies (#[trigger] n[k]).src.start <= n[k].src.end
        && n[k].disp.start <= n[k].disp.end by {
        if k < segs.len() {
            assert(n[k] == segs[k]);
        }
    }
    assert forall|k: int| 0 <= k < n.len() && (#[trigger] n[k]).kind == SegKind::Verbatim implies n[k].src.end
        - n[k].src.start == n[k].disp.end - n[k].disp.start by {
        if k < segs.len() {
            assert(n[k] == segs[k]);
        }
    }
}

proof fn lemma_render_wf(
    b: Seq<u8>,
    ls: int,
    ds: Seq<Directive>,
    cursor: int,
    text: Seq<u8>,
    segs: Seq<Seg>,
)
    requires
        0 <= ls,
        ls + b.len() <= usize::MAX,
        4 * b.len() <= usize::MAX,
        ls <= cursor <= ls + b.len(),
        text.len() <= 4 * (cursor - ls),
        dirs_ordered(ds, cursor, ls + b.len()),
        segs_wf(segs),
        segs.len() > 0 ==> segs.last().kind != SegKind::Verbatim,
        forall|k: int|
            0 <= k < segs.len() ==> (#[trigger] segs[k]).src.end <= cursor && segs[k].disp.end
                <= text.len(),
    ensures
        segs_wf(render(b, ls, ds, cursor, text, segs).1),
        disp_within(render(b, ls, ds, cursor, text, segs).1, render(b, ls, ds, cursor, text, segs).0.len() as int),
    decreases ds.len(),
{
    let le = ls + b.len();
    if ds.len() == 0 {
        let (t1, s1) = verbatim(b, ls, cursor, le, text, segs);
        if cursor < le {
            lemma_push_wf(
                segs,
                mk_seg(cursor, le, text.len() as int, text.len() + (le - cursor), SegKind::Verbatim, None),
            );
        }
        if s1.len() == 0 {
            let a = seq![mk_seg(ls, ls, 0, 0, SegKind::Verbatim, None)];
            assert(segs_wf(a));
        }
    } else {
        let d = ds[0];
        let ds0 = d.range.start as int;
        let (t1, s1) = verbatim(b, ls, cursor, ds0, text, segs);
        if cursor < ds0 {
            lemma_push_wf(
                segs,
                mk_seg(cursor, ds0, text.len() as int, text.len() + (ds0 - cursor), SegKind::Verbatim, None),
            );
        }
        assert(t1.len() <= 4 * (ds0 - ls));
        assert forall|k: int| 0 <= k < s1.len() implies (#[trigger] s1[k]).src.end <= ds0
            && s1[k].disp.end <= t1.len() by {
            if k < segs.len() {
                assert(s1[k] == segs[k]);
            }
        }
        let (t2, s2) = match d.action {
            Action::Hide(bias) => (
                t1,
                s1.push(mk_seg(d.range.start as int, d.range.end as int, t1.len() as int, t1.len() as int, SegKind::Hidden(bias), None)),
            ),
            Action::Replace { glyph, toggle } => {
                let g = encode_utf8(glyph_chars(glyph));
                (
                    t1 + g,
                    s1.push(mk_seg(d.range.start as int, d.range.end as int, t1.len() as int, (t1.len() + g.len()) as int, SegKind::Replacement, toggle)),
                )
            },
        };
        match d.action {
            Action::Hide(bias) => {
                lemma_push_wf(s1, mk_seg(d.range.start as int, d.range.end as int, t1.len() as int, t1.len() as int, SegKind::Hidden(bias), None));
            },
            Action::Replace { glyph, toggle } => {
                lemma_glyph_len(glyph);
                let g = encode_utf8(glyph_chars(glyph));
                lemma_push_wf(s1, mk_seg(d.range.start as int, d.range.end as int, t1.len() as int, (t1.len() + g.len()) as int, SegKind::Replacement, toggle));
            },
        }
        if let Action::Replace { glyph, toggle } = d.action {
            lemma_glyph_len(glyph);
        }
        let rest = ds.drop_first();
        assert forall|i: int| 0 <= i < rest.len() implies d.range.end <= (#[trigger] rest[i]).range.start < rest[i].range.end <= le by {
            assert(rest[i] == ds[i + 1]);
        }
        assert forall|i: int, j: int| 0 <= i < j < rest.len() implies (#[trigger] rest[i]).range.end
            <= (#[trigger] rest[j]).range.start by {
            assert(rest[i] == ds[i + 1]);
            assert(rest[j] == ds[j + 1]);
        }
        assert forall|k: int| 0 <= k < s2.len() implies (#[trigger] s2[k]).src.end <= d.range.end
            && s2[k].disp.end <= t2.len() by {
            if k < s1.len() {
                assert(s2[k] == s1[k]);
            }
        }
        lemma_render_wf(b, ls, rest, d.range.end as int, t2, s2);
    }
}

/// Every line the transform produces has a well-formed segment map.
pub proof fn lemma_display_line_wf(line: &str, ls: int, spans: Seq<StyleSpan>, sel: Range<usize>)
    requires
        0 <= ls,
        ls + line.spec_bytes().len() <= usize::MAX,
        4 * line.spec_bytes().len() <= usize::MAX,
    ensures
        segs_wf(spec_display_line(line, ls, spans, sel).1),
        disp_within(spec_display_line(line, ls, spans, sel).1, spec_display_line(line, ls, spans, sel).0.len() as int),
{
    let b = line.spec_bytes();
    lemma_dir_keep_ordered(dir_sort(raw_directives(b, ls, spans, sel)), ls, ls + b.len(), ls);
    lemma_render_wf(b, ls, spec_directives(b, ls, spans, sel), ls, seq![], seq![]);
}

proof fn lemma_s2d_walk(segs: Seq<Seg>, k: int, src: int, tl: int, j: int)
    requires
        segs_wf(segs),
        0 <= j <= k < segs.len(),
        segs[k].kind == SegKind::Verbatim,
        segs[k].src.start <= src < segs[k].src.end,
        src > segs[k].src.start || k == 0,
    ensures
        spec_src_to_disp(segs.skip(j), src, tl) == segs[k].disp.start + (src - segs[k].src.start),
    decreases k - j,
{
    let t = segs.skip(j);
    assert(t[0] == segs[j]);
    assert(t.drop_first() =~= segs.skip(j + 1));
    if j < k {
        lemma_s2d_walk(segs, k, src, tl, j + 1);
    }
}

proof fn lemma_d2s_walk(segs: Seq<Seg>, k: int, src: int, j: int, cand: Option<int>, fb: int)
    requires
        segs_wf(segs),
        0 <= j <= k < segs.len(),
        segs[k].kind == SegKind::Verbatim,
        segs[k].src.start <= src < segs[k].src.end,
        src > segs[k].src.start || k == 0,
    ensures
        spec_disp_to_src(
            segs.skip(j),
            segs[k].disp.start + (src - segs[k].src.start),
            cand,
            fb,
        ) == src,
    decreases k - j,
{
    let t = segs.skip(j);
    assert(t[0] == segs[j]);
    assert(t.drop_first() =~= segs.skip(j + 1));
    if j < k {
        lemma_d2s_walk(segs, k, src, j + 1, cand, fb);
    }
}

/// Mapping a visible source byte to the display and back returns it,
/// except at the one ambiguous spot: the first byte of a verbatim
/// segment that directly follows a hidden or replaced marker, whose
/// display position is shared with the marker.
pub proof fn lemma_round_trip(segs: Seq<Seg>, text_len: int, k: int, src: int)
    requires
        segs_wf(segs),
        0 <= k < segs.len(),
        segs[k].kind == SegKind::Verbatim,
        segs[k].src.start <= src < segs[k].src.end,
        !(src == segs[k].src.start && k > 0 && segs[k - 1].kind != SegKind::Verbatim),
    ensures
        spec_disp_to_src(
            segs,
            spec_src_to_disp(segs, src, text_len),
            None,
            segs_fallback(segs),
        ) == src,
{
    if k > 0 {
        assert(segs[k - 1].kind != SegKind::Verbatim);
    }
    assert(segs.skip(0) =~= segs);
    lemma_s2d_walk(segs, k, src, text_len, 0);
    lemma_d2s_walk(segs, k, src, 0, None, segs_fallback(segs));
}
/// Every display range ends within the display text.
pub open spec fn disp_within(segs: Seq<Seg>, text_len: int) -> bool {
    forall|k: int| 0 <= k < segs.len() ==> (#[trigger] segs[k]).disp.end <= text_len
}

proof fn lemma_s2d_from_first(segs: Seq<Seg>, x: int, tl: int)
    requires
        segs_wf(segs),
        disp_within(segs, tl),
        segs.len() > 0,
    ensures
        segs[0].disp.start <= spec_src_to_disp(segs, x, tl) <= tl,
    decreases segs.len(),
{
    let seg = segs[0];
    let rest = segs.drop_first();
    assert(seg.disp.start <= seg.disp.end);
    assert(seg.src.start <= seg.src.end);
    assert(seg.disp.end <= tl);
    assert(seg.kind == SegKind::Verbatim ==> seg.src.end - seg.src.start == seg.disp.end - seg.disp.start);
    if x < seg.src.start {
        assert(spec_src_to_disp(segs, x, tl) == seg.disp.start);
    } else if x <= seg.src.end {
        assert(seg.disp.start <= spec_src_to_disp(segs, x, tl) <= seg.disp.end);
    } else {
        assert(spec_src_to_disp(segs, x, tl) == spec_src_to_disp(rest, x, tl));
    }
    if x > seg.src.end {
        if rest.len() > 0 {
            assert(rest[0] == segs[1]);
            assert(segs[0].disp.end <= segs[1].disp.start);
            assert(segs_wf(rest)) by {
                assert forall|i: int, j: int| 0 <= i < j < rest.len() implies (#[trigger] rest[i]).src.end
                    <= (#[trigger] rest[j]).src.start && rest[i].disp.end <= rest[j].disp.start by {
                    assert(rest[i] == segs[i + 1]);
                    assert(rest[j] == segs[j + 1]);
                }
                assert forall|i: int, j: int| 0 <= i && j == i + 1 && j < rest.len() && (#[trigger] rest[j]).kind
                    == SegKind::Verbatim implies (#[trigger] rest[i]).kind != SegKind::Verbatim by {
                    assert(rest[i] == segs[i + 1]);
                    assert(rest[j] == segs[j + 1]);
                }
            }
            assert(disp_within(rest, tl)) by {
                assert forall|k: int| 0 <= k < rest.len() implies (#[trigger] rest[k]).disp.end <= tl by {
                    assert(rest[k] == segs[k + 1]);
                }
            }
            lemma_s2d_from_first(rest, x, tl);
        }
    }
}

/// Mapping source offsets to display offsets keeps their order: over
/// well-formed segments whose display ranges lie within the display
/// text, a source offset no later than another maps no later, and
/// within the display text.
pub proof fn lemma_src_to_disp_monotone(segs: Seq<Seg>, text_len: int, a: int, b: int)
    requires
        segs_wf(segs),
        disp_within(segs, text_len),
        a <= b,
    ensures
        spec_src_to_disp(segs, a, text_len) <= spec_src_to_disp(segs, b, text_len) <= text_len,
    decreases segs.len(),
{
    if segs.len() == 0 {
        return;
    }
    let seg = segs[0];
    let rest = segs.drop_first();
    lemma_s2d_from_first(segs, a, text_len);
    lemma_s2d_from_first(segs, b, text_len);
    assert(segs_wf(rest)) by {
        assert forall|i: int, j: int| 0 <= i < j < rest.len() implies (#[trigger] rest[i]).src.end
            <= (#[trigger] rest[j]).src.start && rest[i].disp.end <= rest[j].disp.start by {
            assert(rest[i] == segs[i + 1]);
            assert(rest[j] == segs[j + 1]);
        }
        assert forall|i: int, j: int| 0 <= i && j == i + 1 && j < rest.len() && (#[trigger] rest[j]).kind
            == SegKind::Verbatim implies (#[trigger] rest[i]).kind != SegKind::Verbatim by {
            assert(rest[i] == segs[i + 1]);
            assert(rest[j] == segs[j + 1]);
        }
    }
    assert(disp_within(rest, text_len)) by {
        assert forall|k: int| 0 <= k < rest.len() implies (#[trigger] rest[k]).disp.end <= text_len by {
            assert(rest[k] == segs[k + 1]);
        }
    }
    assert(seg.disp.start <= seg.disp.end);
    assert(seg.src.start <= seg.src.end);
    assert(seg.disp.end <= text_len);
    assert(seg.kind == SegKind::Verbatim ==> seg.src.end - seg.src.start == seg.disp.end - seg.disp.start);
    if a <= seg.src.end {
        if a >= seg.src.start {
            assert(spec_src_to_disp(segs, a, text_len) <= seg.disp.end);
        } else {
            assert(spec_src_to_disp(segs, a, text_len) == seg.disp.start);
        }
    }
    if b > seg.src.end {
        assert(spec_src_to_disp(segs, b, text_len) == spec_src_to_disp(rest, b, text_len));
        if rest.len() > 0 {
            assert(rest[0] == segs[1]);
            assert(segs[0].disp.end <= segs[1].disp.start);
            lemma_s2d_from_first(rest, b, text_len);
            if a > seg.src.end {
                assert(spec_src_to_disp(segs, a, text_len) == spec_src_to_disp(rest, a, text_len));
                lemma_src_to_disp_monotone(rest, text_len, a, b);
            }
        }
    }
}

/// On a displayed line, a source offset no later than another maps to a
/// display offset no later, within the display text.
pub proof fn lemma_display_line_monotone(line: &str, ls: int, spans: Seq<StyleSpan>, sel: Range<usize>, a: int, b: int)
    requires
        0 <= ls,
        ls + line.spec_bytes().len() <= usize::MAX,
        4 * line.spec_bytes().len() <= usize::MAX,
        a <= b,
    ensures
        ({
            let (text, segs) = spec_display_line(line, ls, spans, sel);
            spec_src_to_disp(segs, a, text.len() as int) <= spec_src_to_disp(segs, b, text.len() as int)
                <= text.len()
        }),
{
    lemma_display_line_wf(line, ls, spans, sel);
    let (text, segs) = spec_display_line(line, ls, spans, sel);
    lemma_src_to_disp_monotone(segs, text.len() as int, a, b);
}
/// Every span boundary that falls on the line `[ls, ls + len]` is a
/// character boundary of the line.
pub open spec fn spans_on_boundaries(line: &str, ls: int, spans: Seq<StyleSpan>) -> bool {
    forall|i: int| 0 <= i < spans.len() ==> {
        let r = (#[trigger] spans[i]).range;
        &&& ls <= r.start <= ls + line.spec_bytes().len() ==> boundary(line, r.start - ls)
        &&& ls <= r.end <= ls + line.spec_bytes().len() ==> boundary(line, r.end - ls)
    }
}

/// A directive whose ends, where they fall on the line, are character
/// boundaries.
pub open spec fn dir_ok(line: &str, ls: int, d: Directive) -> bool {
    &&& ls <= d.range.start <= ls + line.spec_bytes().len() ==> boundary(line, d.range.start - ls)
    &&& ls <= d.range.end <= ls + line.spec_bytes().len() ==> boundary(line, d.range.end - ls)
}

pub open spec fn dirs_ok(line: &str, ls: int, ds: Seq<Directive>) -> bool {
    forall|i: int| 0 <= i < ds.len() ==> dir_ok(line, ls, #[trigger] ds[i])
}

proof fn lemma_ascii_cut(line: &str, i: int)
    requires
        0 <= i < line.spec_bytes().len(),
        line.spec_bytes()[i] < 128,
    ensures
        boundary(line, i),
        boundary(line, i + 1),
{
    crate::text::lemma_ascii_boundary(line.spec_bytes(), i);
}

proof fn lemma_span_directives_ok(line: &str, ls: int, span: StyleSpan, sel: Range<usize>)
    requires
        0 <= ls,
        ls + line.spec_bytes().len() <= usize::MAX,
        span_readable(line, ls, span, sel),
        ({
            let r = span.range;
            &&& ls <= r.start <= ls + line.spec_bytes().len() ==> boundary(line, r.start - ls)
            &&& ls <= r.end <= ls + line.spec_bytes().len() ==> boundary(line, r.end - ls)
        }),
    ensures
        dirs_ok(line, ls, span_directives(line.spec_bytes(), ls, span, sel)),
{
    let b = line.spec_bytes();
    let st = span.range.start as int;
    let en = span.range.end as int;
    let l = st - ls;
    let e = en - ls;
    let s_on = starts_on(b.len() as int, ls, span);
    let e_on = ends_on(b.len() as int, ls, span);
    let ds = span_directives(b, ls, span, sel);
    if span_skipped(b.len() as int, ls, span, sel) {
        return;
    }
    if span.kind is Strong || span.kind is Emphasis || span.kind is Strikethrough || span.kind is InlineCode {
            let n = spec_leading_delim(span.kind, b, l);
        let m = spec_trailing_delim(span.kind, b, e);
        if s_on && n > 0 {
            lemma_run_fwd_bound(b, l, 96);
            assert(l + n <= b.len());
            assert(b[l + n - 1] < 128);
            lemma_ascii_cut(line, l + n - 1);
            assert(dir_ok(line, ls, mk_dir(st, st + n, Action::Hide(Bias::Right))));
        }
        if e_on && m > 0 {
            lemma_run_back_bound(b, e, 96);
            assert(e - m >= 0);
            assert(b[e - m] < 128);
            lemma_ascii_cut(line, e - m);
            assert(dir_ok(line, ls, mk_dir(en - m, en, Action::Hide(Bias::Left))));
        }
        let first = if s_on && n > 0 {
            seq![mk_dir(st, st + n, Action::Hide(Bias::Right))]
        } else {
            seq![]
        };
        let second = if e_on && m > 0 {
            seq![mk_dir(en - m, en, Action::Hide(Bias::Left))]
        } else {
            seq![]
        };
        assert(ds == first + second);
        assert forall|i: int| 0 <= i < ds.len() implies dir_ok(line, ls, #[trigger] ds[i]) by {
            if i < first.len() {
                assert(ds[i] == first[i]);
            } else {
                assert(ds[i] == second[i - first.len()]);
            }
        }
        assert(dirs_ok(line, ls, ds));
        return;
    }
    match span.kind {
        StyleKind::Link => {
            if s_on && e_on && spec_scan_link(b.subrange(l, e)) is Some {
                let sub = b.subrange(l, e);
                let t = spec_scan_link(sub)->0;
                lemma_close_of_range(sub, 1, 1, 91, 93);
                assert(sub[0] == 91);
                assert(b[l] == sub[0]);
                lemma_ascii_cut(line, l);
                assert(sub[t] == 93);
                assert(b[l + t] == sub[t]);
                lemma_ascii_cut(line, l + t);
                let d0 = mk_dir(st, st + 1, Action::Hide(Bias::Right));
                let d1 = mk_dir(st + t, en, Action::Hide(Bias::Left));
                assert(dir_ok(line, ls, d0));
                assert(dir_ok(line, ls, d1));
                assert(ds == seq![d0, d1]);
                assert forall|i: int| 0 <= i < ds.len() implies dir_ok(line, ls, #[trigger] ds[i]) by {
                    if i == 0 {
                        assert(ds[i] == d0);
                    } else {
                        assert(ds[i] == d1);
                    }
                }
            } else {
                assert(ds.len() == 0);
            }
        },
        StyleKind::Heading(_) => {
            let h = run_fwd(b, l, 35);
            if s_on && 1 <= h <= 6 {
                lemma_run_fwd_bound(b, l, 35);
                lemma_ascii_cut(line, l + h - 1);
                if l + h < b.len() && b[l + h] == 32 {
                    lemma_ascii_cut(line, l + h);
                }
                let n = if l + h < b.len() && b[l + h] == 32 { h + 1 } else { h };
                let d0 = mk_dir(st, st + n, Action::Hide(Bias::Right));
                assert(dir_ok(line, ls, d0));
                assert(ds == seq![d0]);
                assert forall|i: int| 0 <= i < ds.len() implies dir_ok(line, ls, #[trigger] ds[i]) by {
                    assert(ds[i] == d0);
                }
            } else {
                assert(ds.len() == 0);
            }
        },
        _ => {},
    }
}

proof fn lemma_raw_directives_ok(line: &str, ls: int, spans: Seq<StyleSpan>, sel: Range<usize>)
    requires
        0 <= ls,
        ls + line.spec_bytes().len() <= usize::MAX,
        spans_on_boundaries(line, ls, spans),
        forall|i: int| 0 <= i < spans.len() ==> span_readable(line, ls, #[trigger] spans[i], sel),
    ensures
        dirs_ok(line, ls, raw_directives(line.spec_bytes(), ls, spans, sel)),
    decreases spans.len(),
{
    if spans.len() > 0 {
        let prev = spans.drop_last();
        assert(spans_on_boundaries(line, ls, prev)) by {
            assert forall|i: int| 0 <= i < prev.len() implies {
                let r = (#[trigger] prev[i]).range;
                &&& ls <= r.start <= ls + line.spec_bytes().len() ==> boundary(line, r.start - ls)
                &&& ls <= r.end <= ls + line.spec_bytes().len() ==> boundary(line, r.end - ls)
            } by {
                assert(prev[i] == spans[i]);
            }
        }
        assert forall|i: int| 0 <= i < prev.len() implies span_readable(line, ls, #[trigger] prev[i], sel) by {
            assert(prev[i] == spans[i]);
        }
        lemma_raw_directives_ok(line, ls, prev, sel);
        let last = spans[spans.len() - 1];
        lemma_span_directives_ok(line, ls, last, sel);
        let a = raw_directives(line.spec_bytes(), ls, prev, sel);
        let c = span_directives(line.spec_bytes(), ls, last, sel);
        assert forall|i: int| 0 <= i < (a + c).len() implies dir_ok(line, ls, #[trigger] (a + c)[i]) by {
            if i < a.len() {
                assert((a + c)[i] == a[i]);
            } else {
                assert((a + c)[i] == c[i - a.len()]);
            }
        }
    }
}

proof fn lemma_dir_insert_ok(line: &str, ls: int, s: Seq<Directive>, x: Directive)
    requires
        dirs_ok(line, ls, s),
        dir_ok(line, ls, x),
    ensures
        dirs_ok(line, ls, dir_insert(s, x)),
    decreases s.len(),
{
    if s.len() > 0 && dir_lt(x, s.last()) {
        let p = s.drop_last();
        assert(dirs_ok(line, ls, p)) by {
            assert forall|i: int| 0 <= i < p.len() implies dir_ok(line, ls, #[trigger] p[i]) by {
                assert(p[i] == s[i]);
            }
        }
        lemma_dir_insert_ok(line, ls, p, x);
        let q = dir_insert(p, x);
        assert forall|i: int| 0 <= i < q.push(s.last()).len() implies dir_ok(line, ls, #[trigger] q.push(s.last())[i]) by {
            if i < q.len() {
                assert(q.push(s.last())[i] == q[i]);
            }
        }
    } else if s.len() > 0 {
        assert forall|i: int| 0 <= i < s.push(x).len() implies dir_ok(line, ls, #[trigger] s.push(x)[i]) by {
            if i < s.len() {
                assert(s.push(x)[i] == s[i]);
            }
        }
    }
}

proof fn lemma_dir_sort_ok(line: &str, ls: int, s: Seq<Directive>)
    requires
        dirs_ok(line, ls, s),
    ensures
        dirs_ok(line, ls, dir_sort(s)),
    decreases s.len(),
{
    if s.len() > 0 {
        let p = s.drop_last();
        assert(dirs_ok(line, ls, p)) by {
            assert forall|i: int| 0 <= i < p.len() implies dir_ok(line, ls, #[trigger] p[i]) by {
                assert(p[i] == s[i]);
            }
        }
        lemma_dir_sort_ok(line, ls, p);
        lemma_dir_insert_ok(line, ls, dir_sort(p), s.last());
    }
}

proof fn lemma_dir_keep_ok(line: &str, ls: int, s: Seq<Directive>, last_end: int)
    requires
        0 <= ls,
        ls + line.spec_bytes().len() <= usize::MAX,
        dirs_ok(line, ls, s),
    ensures
        dirs_on_boundaries(line, ls, dir_keep(s, ls, ls + line.spec_bytes().len(), last_end)),
    decreases s.len(),
{
    let le = ls + line.spec_bytes().len();
    vstd::utf8::encode_utf8_valid_utf8(line@);
    vstd::utf8::is_char_boundary_start_end_of_seq(line.spec_bytes());
    if s.len() > 0 {
        let d = s[0];
        let rest = s.drop_first();
        assert(dirs_ok(line, ls, rest)) by {
            assert forall|i: int| 0 <= i < rest.len() implies dir_ok(line, ls, #[trigger] rest[i]) by {
                assert(rest[i] == s[i + 1]);
            }
        }
        assert(dir_ok(line, ls, d));
        let st = if d.range.start >= ls { d.range.start as int } else { ls };
        let en = if d.range.end <= le { d.range.end as int } else { le };
        lemma_dir_keep_ok(line, ls, rest, last_end);
        lemma_dir_keep_ok(line, ls, rest, en);
        if !(st >= en || st < last_end) {
            let k = dir_keep(s, ls, le, last_end);
            let tail = dir_keep(rest, ls, le, en);
            assert(k == seq![mk_dir(st, en, d.action)] + tail);
            assert(boundary(line, st - ls));
            assert(boundary(line, en - ls));
            assert forall|i: int| 0 <= i < k.len() implies boundary(line, (#[trigger] k[i]).range.start - ls)
                && boundary(line, k[i].range.end - ls) by {
                if i > 0 {
                    assert(k[i] == tail[i - 1]);
                }
            }
        }
    }
}

/// When the spans' ends that fall on the line are character boundaries,
/// so are the ends of every directive the line is displayed with.
pub proof fn lemma_directives_on_boundaries(line: &str, ls: int, spans: Seq<StyleSpan>, sel: Range<usize>)
    requires
        0 <= ls,
        ls + line.spec_bytes().len() <= usize::MAX,
        spans_on_boundaries(line, ls, spans),
        forall|i: int| 0 <= i < spans.len() ==> span_readable(line, ls, #[trigger] spans[i], sel),
    ensures
        dirs_on_boundaries(line, ls, spec_directives(line.spec_bytes(), ls, spans, sel)),
{
    lemma_raw_directives_ok(line, ls, spans, sel);
    lemma_dir_sort_ok(line, ls, raw_directives(line.spec_bytes(), ls, spans, sel));
    lemma_dir_keep_ok(line, ls, dir_sort(raw_directives(line.spec_bytes(), ls, spans, sel)), ls);
}

/// The segments tile the source from `ls` to `to` and the display text
/// from 0 to `text_len`: the first starts at `ls` and 0, each starts
/// where the one before ended, the last ends at `to` and `text_len`, and
/// a hidden segment shows nothing.
pub open spec fn segs_tile(segs: Seq<Seg>, ls: int, to: int, text_len: int) -> bool {
    &&& segs.len() > 0
    &&& segs[0].src.start == ls && segs[0].disp.start == 0
    &&& forall|i: int, j: int| 0 <= i && j == i + 1 && j < segs.len() ==> (#[trigger] segs[i]).src.end
        == (#[trigger] segs[j]).src.start && segs[i].disp.end == segs[j].disp.start
    &&& segs.last().src.end == to && segs.last().disp.end == text_len
    &&& forall|k: int| 0 <= k < segs.len() && (#[trigger] segs[k]).kind is Hidden ==> segs[k].disp.start
        == segs[k].disp.end
}

/// Each verbatim segment shows its source bytes unchanged.
pub open spec fn verbatim_shown(segs: Seq<Seg>, b: Seq<u8>, ls: int, text: Seq<u8>) -> bool {
    forall|k: int| 0 <= k < segs.len() && (#[trigger] segs[k]).kind == SegKind::Verbatim ==> {
        &&& segs[k].disp.start <= segs[k].disp.end <= text.len()
        &&& ls <= segs[k].src.start <= segs[k].src.end <= ls + b.len()
        &&& text.subrange(segs[k].disp.start as int, segs[k].disp.end as int) == b.subrange(
            segs[k].src.start - ls,
            segs[k].src.end - ls,
        )
    }
}

/// What has been rendered so far tiles `[ls, cursor)` and the text, or
/// nothing has been rendered yet.
pub open spec fn tiled_so_far(segs: Seq<Seg>, ls: int, cursor: int, text_len: int) -> bool {
    if segs.len() == 0 {
        cursor == ls && text_len == 0
    } else {
        segs_tile(segs, ls, cursor, text_len)
    }
}

proof fn lemma_push_tile(segs: Seq<Seg>, ls: int, cursor: int, text_len: int, s: Seg)
    requires
        tiled_so_far(segs, ls, cursor, text_len),
        s.src.start == cursor,
        s.disp.start == text_len,
        s.kind is Hidden ==> s.disp.start == s.disp.end,
        0 <= cursor <= usize::MAX,
        0 <= text_len <= usize::MAX,
    ensures
        segs_tile(segs.push(s), ls, s.src.end as int, s.disp.end as int),
{
    let t = segs.push(s);
    assert forall|i: int, j: int| 0 <= i && j == i + 1 && j < t.len() implies (#[trigger] t[i]).src.end
        == (#[trigger] t[j]).src.start && t[i].disp.end == t[j].disp.start by {
        assert(t[i] == segs[i]);
        if j < segs.len() {
            assert(t[j] == segs[j]);
        } else {
            assert(segs[i] == segs.last());
        }
    }
    assert forall|k: int| 0 <= k < t.len() && (#[trigger] t[k]).kind is Hidden implies t[k].disp.start
        == t[k].disp.end by {
        if k < segs.len() {
            assert(t[k] == segs[k]);
        }
    }
}


proof fn lemma_shown_extend(segs: Seq<Seg>, b: Seq<u8>, ls: int, text: Seq<u8>, x: Seq<u8>)
    requires
        verbatim_shown(segs, b, ls, text),
    ensures
        verbatim_shown(segs, b, ls, text + x),
{
    assert forall|k: int| 0 <= k < segs.len() && (#[trigger] segs[k]).kind == SegKind::Verbatim implies {
        &&& segs[k].disp.start <= segs[k].disp.end <= (text + x).len()
        &&& ls <= segs[k].src.start <= segs[k].src.end <= ls + b.len()
        &&& (text + x).subrange(segs[k].disp.start as int, segs[k].disp.end as int) == b.subrange(
            segs[k].src.start - ls,
            segs[k].src.end - ls,
        )
    } by {
        assert((text + x).subrange(segs[k].disp.start as int, segs[k].disp.end as int) =~= text.subrange(
            segs[k].disp.start as int,
            segs[k].disp.end as int,
        ));
    }
}

proof fn lemma_shown_push(segs: Seq<Seg>, b: Seq<u8>, ls: int, text: Seq<u8>, s: Seg)
    requires
        verbatim_shown(segs, b, ls, text),
        s.kind == SegKind::Verbatim ==> {
            &&& s.disp.start <= s.disp.end <= text.len()
            &&& ls <= s.src.start <= s.src.end <= ls + b.len()
            &&& text.subrange(s.disp.start as int, s.disp.end as int) == b.subrange(s.src.start - ls, s.src.end - ls)
        },
    ensures
        verbatim_shown(segs.push(s), b, ls, text),
{
    assert forall|k: int| 0 <= k < segs.push(s).len() && (#[trigger] segs.push(s)[k]).kind == SegKind::Verbatim implies {
        &&& segs.push(s)[k].disp.start <= segs.push(s)[k].disp.end <= text.len()
        &&& ls <= segs.push(s)[k].src.start <= segs.push(s)[k].src.end <= ls + b.len()
        &&& text.subrange(segs.push(s)[k].disp.start as int, segs.push(s)[k].disp.end as int) == b.subrange(
            segs.push(s)[k].src.start - ls,
            segs.push(s)[k].src.end - ls,
        )
    } by {
        if k < segs.len() {
            assert(segs.push(s)[k] == segs[k]);
        }
    }
}

/// A verbatim run from `from` to `to` keeps every verbatim segment
/// showing its source.
proof fn lemma_shown_verbatim(b: Seq<u8>, ls: int, from: int, to: int, text: Seq<u8>, segs: Seq<Seg>)
    requires
        verbatim_shown(segs, b, ls, text),
        0 <= ls <= from,
        to <= ls + b.len(),
        0 <= text.len(),
        text.len() + (to - from) <= usize::MAX,
        to <= usize::MAX,
    ensures
        verbatim_shown(verbatim(b, ls, from, to, text, segs).1, b, ls, verbatim(b, ls, from, to, text, segs).0),
{
    if from < to {
        let x = b.subrange(from - ls, to - ls);
        lemma_shown_extend(segs, b, ls, text, x);
        let sg = mk_seg(from, to, text.len() as int, text.len() + (to - from), SegKind::Verbatim, None);
        assert((text + x).subrange(text.len() as int, text.len() + (to - from)) =~= x);
        lemma_shown_push(segs, b, ls, text + x, sg);
    }
}

proof fn lemma_render_tiles(b: Seq<u8>, ls: int, ds: Seq<Directive>, cursor: int, text: Seq<u8>, segs: Seq<Seg>)
    requires
        0 <= ls,
        ls + b.len() <= usize::MAX,
        4 * b.len() <= usize::MAX,
        ls <= cursor <= ls + b.len(),
        text.len() <= 4 * (cursor - ls),
        dirs_ordered(ds, cursor, ls + b.len()),
        tiled_so_far(segs, ls, cursor, text.len() as int),
        verbatim_shown(segs, b, ls, text),
    ensures
        segs_tile(render(b, ls, ds, cursor, text, segs).1, ls, ls + b.len(), render(b, ls, ds, cursor, text, segs).0.len() as int),
        verbatim_shown(render(b, ls, ds, cursor, text, segs).1, b, ls, render(b, ls, ds, cursor, text, segs).0),
    decreases ds.len(),
{
    let le = ls + b.len();
    if ds.len() == 0 {
        let (t1, s1) = verbatim(b, ls, cursor, le, text, segs);
        lemma_shown_verbatim(b, ls, cursor, le, text, segs);
        if cursor < le {
            lemma_push_tile(segs, ls, cursor, text.len() as int,
                mk_seg(cursor, le, text.len() as int, text.len() + (le - cursor), SegKind::Verbatim, None));
        }
        if s1.len() == 0 {
            let a = seq![mk_seg(ls, ls, 0, 0, SegKind::Verbatim, None)];
            assert(segs_tile(a, ls, le, 0));
            assert(t1.subrange(0, 0) =~= b.subrange(0, 0));
            assert(verbatim_shown(a, b, ls, t1));
        }
    } else {
        let d = ds[0];
        let ds0 = d.range.start as int;
        let (t1, s1) = verbatim(b, ls, cursor, ds0, text, segs);
        lemma_shown_verbatim(b, ls, cursor, ds0, text, segs);
        if cursor < ds0 {
            lemma_push_tile(segs, ls, cursor, text.len() as int,
                mk_seg(cursor, ds0, text.len() as int, text.len() + (ds0 - cursor), SegKind::Verbatim, None));
        }
        assert(tiled_so_far(s1, ls, ds0, t1.len() as int));
        assert(t1.len() <= 4 * (ds0 - ls));
        let (t2, s2) = match d.action {
            Action::Hide(bias) => (
                t1,
                s1.push(mk_seg(d.range.start as int, d.range.end as int, t1.len() as int, t1.len() as int, SegKind::Hidden(bias), None)),
            ),
            Action::Replace { glyph, toggle } => {
                let g = encode_utf8(glyph_chars(glyph));
                (
                    t1 + g,
                    s1.push(mk_seg(d.range.start as int, d.range.end as int, t1.len() as int, (t1.len() + g.len()) as int, SegKind::Replacement, toggle)),
                )
            },
        };
        match d.action {
            Action::Hide(bias) => {
                lemma_push_tile(s1, ls, ds0, t1.len() as int, mk_seg(d.range.start as int, d.range.end as int, t1.len() as int, t1.len() as int, SegKind::Hidden(bias), None));
                lemma_shown_push(s1, b, ls, t1, mk_seg(d.range.start as int, d.range.end as int, t1.len() as int, t1.len() as int, SegKind::Hidden(bias), None));
            },
            Action::Replace { glyph, toggle } => {
                lemma_glyph_len(glyph);
                let g = encode_utf8(glyph_chars(glyph));
                lemma_push_tile(s1, ls, ds0, t1.len() as int, mk_seg(d.range.start as int, d.range.end as int, t1.len() as int, (t1.len() + g.len()) as int, SegKind::Replacement, toggle));
                lemma_shown_extend(s1, b, ls, t1, g);
                lemma_shown_push(s1, b, ls, t1 + g, mk_seg(d.range.start as int, d.range.end as int, t1.len() as int, (t1.len() + g.len()) as int, SegKind::Replacement, toggle));
            },
        }
        let rest = ds.drop_first();
        assert forall|i: int| 0 <= i < rest.len() implies d.range.end <= (#[trigger] rest[i]).range.start < rest[i].range.end <= le by {
            assert(rest[i] == ds[i + 1]);
        }
        assert forall|i: int, j: int| 0 <= i < j < rest.len() implies (#[trigger] rest[i]).range.end
            <= (#[trigger] rest[j]).range.start by {
            assert(rest[i] == ds[i + 1]);
            assert(rest[j] == ds[j + 1]);
        }
        lemma_render_tiles(b, ls, rest, d.range.end as int, t2, s2);
    }
}

/// The segments of a displayed line tile it: they run from the line's
/// start to its end in the source and from 0 to the end of the display
/// text, each beginning where the one before ended, and a hidden
/// segment shows nothing; a verbatim segment shows its source bytes.
pub proof fn lemma_display_line_tiles(line: &str, ls: int, spans: Seq<StyleSpan>, sel: Range<usize>)
    requires
        0 <= ls,
        ls + line.spec_bytes().len() <= usize::MAX,
        4 * line.spec_bytes().len() <= usize::MAX,
    ensures
        segs_tile(
            spec_display_line(line, ls, spans, sel).1,
            ls,
            ls + line.spec_bytes().len(),
            spec_display_line(line, ls, spans, sel).0.len() as int,
        ),
        verbatim_shown(
            spec_display_line(line, ls, spans, sel).1,
            line.spec_bytes(),
            ls,
            spec_display_line(line, ls, spans, sel).0,
        ),
{
    let b = line.spec_bytes();
    lemma_dir_keep_ordered(dir_sort(raw_directives(b, ls, spans, sel)), ls, ls + b.len(), ls);
    lemma_render_tiles(b, ls, spec_directives(b, ls, spans, sel), ls, seq![], seq![]);
}

} // verus!
