//! Cross-line blocks of the document: tables, whole-line images, and
//! fenced code blocks with their delimiter lines. Discovering them is
//! the Markdown parser's job; these are the values it reports.
use vstd::prelude::*;
use vstd::string::*;
use core::ops::Range;
use vstd::utf8::*;
use crate::text::{
    boundary, chars_of, find_line_start, find_newline, is_boundary, lemma_ascii_boundary,
    lemma_line_start_at, lemma_next_nl, line_start_at, next_nl, push_str, str_eq, string_of,
    substr, trim_range, trimmed,
};
use pulldown_cmark::{CodeBlockKind, Event, Options, Parser, Tag, TagEnd};

verus! {

broadcast use vstd::utf8::encode_utf8_valid_utf8, vstd::utf8::is_char_boundary_start_end_of_seq;

#[derive(Debug, PartialEq, Eq)]
pub enum BlockKind {
    Table,
    Image {
        alt: String,
        dest: String,
    },
    Fence {
        /// Byte range of the opening ``` line (newline excluded).
        open_line: Range<usize>,
        /// Byte range of the closing line; None when unclosed at EOF.
        close_line: Option<Range<usize>>,
    },
}

#[derive(Debug, PartialEq, Eq)]
pub struct BlockInfo {
    pub range: Range<usize>,
    pub kind: BlockKind,
}

/// The line (byte range, newline excluded) containing byte `offset`.
pub fn line_containing(source: &str, offset: usize) -> (r: Range<usize>)
    requires
        offset <= source.spec_bytes().len(),
        boundary(source, offset as int),
    ensures
        r.start == line_start_at(source.spec_bytes(), offset as int),
        r.end == next_nl(source.spec_bytes(), offset as int, source.spec_bytes().len() as int),
{
    let b = source.as_bytes();
    let start = find_line_start(b, offset);
    let end = find_newline(b, offset, b.len());
    start..end
}

/// A Markdown parser event, as the plain values block discovery reads:
/// where a table, an image or a fenced code block starts (with the
/// image's destination), text with its bytes, where an image or a code
/// block ends, and anything else.
#[derive(Debug)]
pub enum MdEvent {
    TableStart(Range<usize>),
    ImageStart(Range<usize>, String),
    Text(Range<usize>, String),
    ImageEnd,
    FenceStart(Range<usize>),
    CodeEnd,
    Other,
}

pub enum MdEventView {
    TableStart(Range<usize>),
    ImageStart(Range<usize>, Seq<char>),
    Text(Range<usize>, Seq<char>),
    ImageEnd,
    FenceStart(Range<usize>),
    CodeEnd,
    Other,
}

pub open spec fn event_view(e: MdEvent) -> MdEventView {
    match e {
        MdEvent::TableStart(r) => MdEventView::TableStart(r),
        MdEvent::ImageStart(r, d) => MdEventView::ImageStart(r, d@),
        MdEvent::Text(r, x) => MdEventView::Text(r, x@),
        MdEvent::ImageEnd => MdEventView::ImageEnd,
        MdEvent::FenceStart(r) => MdEventView::FenceStart(r),
        MdEvent::CodeEnd => MdEventView::CodeEnd,
        MdEvent::Other => MdEventView::Other,
    }
}

pub open spec fn events_view(v: Seq<MdEvent>) -> Seq<MdEventView> {
    Seq::new(v.len(), |i: int| event_view(v[i]))
}

/// The events `pulldown_cmark` reports for `source`, with tables,
/// strikethrough and task lists enabled.
pub uninterp spec fn md_events(source: Seq<char>) -> Seq<MdEventView>;

/// `pulldown_cmark::Parser::new_ext(source, ..).into_offset_iter()`,
/// each event with its byte range, as plain values.
#[verifier::external_body]
fn markdown_events(source: &str) -> (r: Vec<MdEvent>)
    ensures
        events_view(r@) == md_events(source@),
{
    let opts = Options::ENABLE_TABLES | Options::ENABLE_STRIKETHROUGH | Options::ENABLE_TASKLISTS;
    Parser::new_ext(source, opts).into_offset_iter().map(|(e, r)| match e {
        Event::Start(Tag::Table(_)) => MdEvent::TableStart(r),
        Event::Start(Tag::Image { dest_url, .. }) => MdEvent::ImageStart(r, dest_url.to_string()),
        Event::Text(t) => MdEvent::Text(r, t.to_string()),
        Event::End(TagEnd::Image) => MdEvent::ImageEnd,
        Event::Start(Tag::CodeBlock(CodeBlockKind::Fenced(_))) => MdEvent::FenceStart(r),
        Event::End(TagEnd::CodeBlock) => MdEvent::CodeEnd,
        _ => MdEvent::Other,
    }).collect()
}

/// A block as plain values.
pub enum KindView {
    Table,
    Image { alt: Seq<char>, dest: Seq<char> },
    Fence { open_line: Range<usize>, close_line: Option<Range<usize>> },
}

pub struct BlockView {
    pub range: Range<usize>,
    pub kind: KindView,
}

pub open spec fn block_view(b: BlockInfo) -> BlockView {
    BlockView {
        range: b.range,
        kind: match b.kind {
            BlockKind::Table => KindView::Table,
            BlockKind::Image { alt, dest } => KindView::Image { alt: alt@, dest: dest@ },
            BlockKind::Fence { open_line, close_line } => KindView::Fence { open_line, close_line },
        },
    }
}

pub open spec fn blocks_view(v: Seq<BlockInfo>) -> Seq<BlockView> {
    Seq::new(v.len(), |i: int| block_view(v[i]))
}

/// A range the text can be cut at.
pub open spec fn valid_range(t: &str, r: Range<usize>) -> bool {
    &&& r.start <= r.end <= t.spec_bytes().len()
    &&& r.end < usize::MAX
    &&& boundary(t, r.start as int)
    &&& boundary(t, r.end as int)
}

/// The characters of the bytes `[a, b)`.
pub open spec fn text_of(t: &str, a: int, b: int) -> Seq<char> {
    decode_utf8(t.spec_bytes().subrange(a, b))
}

/// `r` without one trailing newline.
pub open spec fn trim_nl(t: &str, r: Range<usize>) -> Range<usize> {
    if r.end > r.start && t.spec_bytes()[r.end - 1] == 10 {
        Range { start: r.start, end: (r.end - 1) as usize }
    } else {
        r
    }
}

/// An image is a block only when its markup is the whole line, edge
/// whitespace aside.
pub open spec fn image_on_own_line(t: &str, r: Range<usize>) -> bool {
    let b = t.spec_bytes();
    &&& valid_range(t, r)
    &&& trimmed(text_of(t, line_start_at(b, r.start as int), next_nl(b, r.start as int, b.len() as int)))
        == text_of(t, r.start as int, r.end as int)
}

/// The fenced block whose parser range is `b` and whose body text, if
/// any, spans `body`: the opening line, and the closing line when the
/// fence was closed (it follows the body and ends the block).
pub open spec fn fence_block(t: &str, b: Range<usize>, body: Option<(usize, usize)>) -> BlockView {
    let range = trim_nl(t, b);
    let open_end = next_nl(t.spec_bytes(), b.start as int, range.end as int);
    let body_end: int = match body {
        Some((_, e)) => e as int,
        None => if open_end + 1 <= range.end {
            open_end + 1
        } else {
            range.end as int
        },
    };
    BlockView {
        range,
        kind: KindView::Fence {
            open_line: Range { start: b.start, end: open_end as usize },
            close_line: if body_end < range.end {
                Some(Range { start: body_end as usize, end: range.end })
            } else {
                None
            },
        },
    }
}

/// Discovery so far: the blocks found, the image being read (its range,
/// alt text so far, destination), and the fenced block being read (its
/// range, and where its body text starts and ends).
pub struct ScanView {
    pub out: Seq<BlockView>,
    pub image: Option<(Range<usize>, Seq<char>, Seq<char>)>,
    pub fence: Option<(Range<usize>, Option<(usize, usize)>)>,
}

pub open spec fn scan_step(t: &str, st: ScanView, e: MdEventView) -> ScanView {
    match e {
        MdEventView::TableStart(r) => if valid_range(t, r) {
            ScanView { out: st.out.push(BlockView { range: trim_nl(t, r), kind: KindView::Table }), ..st }
        } else {
            st
        },
        MdEventView::ImageStart(r, dest) => ScanView { image: Some((r, seq![], dest)), ..st },
        MdEventView::Text(r, x) => {
            let st1 = match st.image {
                Some((ir, alt, d)) => ScanView { image: Some((ir, alt + x, d)), ..st },
                None => st,
            };
            match st1.fence {
                Some((fr, body)) => ScanView {
                    fence: Some((fr, Some(match body {
                        Some((a, _)) => (a, r.end),
                        None => (r.start, r.end),
                    }))),
                    ..st1
                },
                None => st1,
            }
        },
        MdEventView::ImageEnd => match st.image {
            Some((r, alt, dest)) => {
                let st1 = ScanView { image: None, ..st };
                if image_on_own_line(t, r) {
                    ScanView {
                        out: st1.out.push(BlockView { range: r, kind: KindView::Image { alt, dest } }),
                        ..st1
                    }
                } else {
                    st1
                }
            },
            None => st,
        },
        MdEventView::FenceStart(r) => ScanView { fence: Some((r, None)), ..st },
        MdEventView::CodeEnd => match st.fence {
            Some((b, body)) => {
                let st1 = ScanView { fence: None, ..st };
                if valid_range(t, b) {
                    ScanView { out: st1.out.push(fence_block(t, b, body)), ..st1 }
                } else {
                    st1
                }
            },
            None => st,
        },
        MdEventView::Other => st,
    }
}

/// Discovery over the first `k` events.
pub open spec fn scan_upto(t: &str, evs: Seq<MdEventView>, k: int) -> ScanView
    decreases k,
{
    if k <= 0 {
        ScanView { out: seq![], image: None, fence: None }
    } else {
        scan_step(t, scan_upto(t, evs, k - 1), evs[k - 1])
    }
}

/// The blocks of `t` given the parser's events for it.
pub open spec fn spec_blocks(t: &str, evs: Seq<MdEventView>) -> Seq<BlockView> {
    scan_upto(t, evs, evs.len() as int).out
}

pub open spec fn image_view(i: Option<(Range<usize>, String, String)>) -> Option<(Range<usize>, Seq<char>, Seq<char>)> {
    match i {
        Some((r, a, d)) => Some((r, a@, d@)),
        None => None,
    }
}

/// Whether `r` is a range of `source` that can be cut, computed.
fn range_ok(source: &str, r: &Range<usize>) -> (ok: bool)
    ensures
        ok == valid_range(source, *r),
{
    let b = source.as_bytes();
    r.start <= r.end && r.end <= b.len() && r.end < usize::MAX && is_boundary(b, r.start)
        && is_boundary(b, r.end)
}

fn trim_nl_exec(source: &str, r: &Range<usize>) -> (out: Range<usize>)
    requires
        valid_range(source, *r),
    ensures
        out == trim_nl(source, *r),
{
    let b = source.as_bytes();
    if r.end > r.start && b[r.end - 1] == 10u8 {
        r.start..r.end - 1
    } else {
        r.start..r.end
    }
}

/// Whether the image markup at `r` is its whole line, computed.
fn own_line(source: &str, r: &Range<usize>) -> (ok: bool)
    ensures
        ok == image_on_own_line(source, *r),
{
    if !range_ok(source, r) {
        return false;
    }
    let bytes = source.as_bytes();
    let ghost t = bytes@;
    let line = line_containing(source, r.start);
    proof {
        lemma_line_start_at(t, r.start as int);
        lemma_next_nl(t, r.start as int, t.len() as int);
        if line.start > 0 {
            lemma_ascii_boundary(t, line.start - 1);
        }
        if line.end < t.len() {
            lemma_ascii_boundary(t, line.end as int);
        }
    }
    let ls = substr(source, line.start, line.end);
    let v = chars_of(ls);
    let (a, z) = trim_range(&v, 0, v.len());
    let kept = string_of(&v, a, z);
    let img = substr(source, r.start, r.end);
    proof {
        vstd::utf8::encode_utf8_decode_utf8(ls@);
        vstd::utf8::encode_utf8_decode_utf8(img@);
        assert(v@.subrange(0, v@.len() as int) =~= v@);
    }
    str_eq(kept.as_str(), img)
}

/// The fenced block as a value, computed.
fn fence_block_exec(source: &str, b: &Range<usize>, body: Option<(usize, usize)>) -> (out: BlockInfo)
    requires
        valid_range(source, *b),
    ensures
        block_view(out) == fence_block(source, *b, body),
{
    let bytes = source.as_bytes();
    let range = trim_nl_exec(source, b);
    let open_end = find_newline(bytes, b.start, range.end);
    let body_end = match body {
        Some((_, e)) => e,
        None => if open_end < range.end {
            open_end + 1
        } else {
            range.end
        },
    };
    let close_line = if body_end < range.end {
        Some(body_end..range.end)
    } else {
        None
    };
    BlockInfo { range, kind: BlockKind::Fence { open_line: b.start..open_end, close_line } }
}

/// The tables, whole-line images and fenced code blocks of `source`,
/// read off the parser's events `events` for it, in the order the
/// parser closes them. Events whose ranges do not cut `source` at
/// character boundaries are passed over.
pub fn blocks_from_events(source: &str, events: &[MdEvent]) -> (r: Vec<BlockInfo>)
    ensures
        blocks_view(r@) == spec_blocks(source, events_view(events@)),
{
    let ghost evs = events_view(events@);
    let mut out: Vec<BlockInfo> = Vec::new();
    let mut image: Option<(Range<usize>, String, String)> = None;
    let mut fence: Option<(Range<usize>, Option<(usize, usize)>)> = None;
    let mut i: usize = 0;
    assert(blocks_view(out@) =~= Seq::<BlockView>::empty());
    while i < events.len()
        invariant
            i <= events@.len(),
            evs == events_view(events@),
            blocks_view(out@) == scan_upto(source, evs, i as int).out,
            image_view(image) == scan_upto(source, evs, i as int).image,
            fence == scan_upto(source, evs, i as int).fence,
        decreases events@.len() - i,
    {
        let ghost before = blocks_view(out@);
        assert(evs[i as int] == event_view(events@[i as int]));
        match &events[i] {
            MdEvent::TableStart(r) => {
                if range_ok(source, r) {
                    let tr = trim_nl_exec(source, r);
                    out.push(BlockInfo { range: tr, kind: BlockKind::Table });
                    assert(blocks_view(out@) =~= before.push(BlockView { range: tr, kind: KindView::Table }));
                }
            },
            MdEvent::ImageStart(r, dest) => {
                let empty = String::new();
                image = Some((r.start..r.end, empty, dest.clone()));
            },
            MdEvent::Text(r, x) => {
                let img = image;
                image = match img {
                    Some((ir, alt, d)) => {
                        let mut alt2 = alt;
                        push_str(&mut alt2, x.as_str());
                        Some((ir, alt2, d))
                    },
                    None => None,
                };
                fence = match fence {
                    Some((fr, body)) => Some((fr, Some(match body {
                        Some((a, _)) => (a, r.end),
                        None => (r.start, r.end),
                    }))),
                    None => None,
                };
            },
            MdEvent::ImageEnd => {
                let img = image;
                image = None;
                match img {
                    Some((r, alt, dest)) => {
                        if own_line(source, &r) {
                            let ghost av = alt@;
                            let ghost dv = dest@;
                            out.push(BlockInfo { range: r, kind: BlockKind::Image { alt, dest } });
                            assert(blocks_view(out@) =~= before.push(
                                BlockView { range: r, kind: KindView::Image { alt: av, dest: dv } },
                            ));
                        }
                    },
                    None => {},
                }
            },
            MdEvent::FenceStart(r) => {
                fence = Some((r.start..r.end, None));
            },
            MdEvent::CodeEnd => {
                let f = fence;
                fence = None;
                match f {
                    Some((b, body)) => {
                        if range_ok(source, &b) {
                            let blk = fence_block_exec(source, &b, body);
                            let ghost bv = block_view(blk);
                            out.push(blk);
                            assert(blocks_view(out@) =~= before.push(bv));
                        }
                    },
                    None => {},
                }
            },
            MdEvent::Other => {},
        }
        i += 1;
    }
    out
}

/// The tables, whole-line images and fenced code blocks of `source`, as
/// the Markdown parser finds them.
pub fn blocks(source: &str) -> (r: Vec<BlockInfo>)
    ensures
        blocks_view(r@) == spec_blocks(source, md_events(source@)),
{
    let events = markdown_events(source);
    blocks_from_events(source, events.as_slice())
}

} // verus!
