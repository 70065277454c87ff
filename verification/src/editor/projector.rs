//! The projectors: each block-widget kind (table, image) claims line
//! ranges during discovery; the shell renders a widget for each claim
//! the projection keeps. The reveal rule itself lives in projection:
//! projectors never see the selection.
use vstd::prelude::*;
use core::ops::Range;
use crate::editor::blocks::{BlockInfo, BlockKind};
use crate::editor::projection::{line_of_byte, spec_line_of_byte};

verus! {

/// A table's widget needs nothing beyond its lines.
#[derive(Debug, PartialEq, Eq)]
pub struct TablePayload;

/// An image's widget: its alt text and destination.
#[derive(Debug, PartialEq, Eq)]
pub struct ImagePayload {
    pub alt: String,
    pub dest: String,
}

/// What a projector parsed out of its claim, for the widget to draw.
#[derive(Debug, PartialEq, Eq)]
pub enum Payload {
    Table(TablePayload),
    Image(ImagePayload),
}

/// A payload as plain values.
pub enum PayloadView {
    Table,
    Image(Seq<char>, Seq<char>),
}

pub open spec fn payload_view(p: Payload) -> PayloadView {
    match p {
        Payload::Table(_) => PayloadView::Table,
        Payload::Image(i) => PayloadView::Image(i.alt@, i.dest@),
    }
}

impl Payload {
    pub fn duplicate(&self) -> (r: Payload)
        ensures
            payload_view(r) == payload_view(*self),
    {
        match self {
            Payload::Table(_) => Payload::Table(TablePayload),
            Payload::Image(i) => Payload::Image(ImagePayload { alt: i.alt.clone(), dest: i.dest.clone() }),
        }
    }
}

pub struct Claim {
    /// Source lines the widget consumes.
    pub lines: Range<usize>,
    /// Source byte range for the central touch test.
    pub bytes: Range<usize>,
    /// Projector-specific parsed data.
    pub payload: Payload,
}

/// A claim as plain values.
pub struct ClaimView {
    pub lines: (int, int),
    pub bytes: (int, int),
    pub payload: PayloadView,
}

pub open spec fn claim_view(c: Claim) -> ClaimView {
    ClaimView {
        lines: (c.lines.start as int, c.lines.end as int),
        bytes: (c.bytes.start as int, c.bytes.end as int),
        payload: payload_view(c.payload),
    }
}

pub open spec fn claims_view(v: Seq<Claim>) -> Seq<ClaimView> {
    Seq::new(v.len(), |i: int| claim_view(v[i]))
}

/// The claim of a block spanning bytes `[s, e)`: the lines from the one
/// holding `s` through the one holding its last byte.
pub open spec fn block_lines(lines: Seq<Range<usize>>, s: int, e: int) -> (int, int) {
    let first = spec_line_of_byte(lines, s);
    let last = spec_line_of_byte(lines, (if e > s + 1 { e } else { s + 1 }) - 1);
    (first, last + 1)
}

/// The table claims of `blocks`, in block order.
pub open spec fn table_claims(blocks: Seq<BlockInfo>, lines: Seq<Range<usize>>) -> Seq<ClaimView>
    decreases blocks.len(),
{
    if blocks.len() == 0 {
        seq![]
    } else {
        let rest = table_claims(blocks.drop_last(), lines);
        let b = blocks.last();
        if b.kind is Table {
            rest.push(
                ClaimView {
                    lines: block_lines(lines, b.range.start as int, b.range.end as int),
                    bytes: (b.range.start as int, b.range.end as int),
                    payload: PayloadView::Table,
                },
            )
        } else {
            rest
        }
    }
}

/// The whole-line image claims of `blocks`, in block order.
pub open spec fn image_claims(blocks: Seq<BlockInfo>, lines: Seq<Range<usize>>) -> Seq<ClaimView>
    decreases blocks.len(),
{
    if blocks.len() == 0 {
        seq![]
    } else {
        let rest = image_claims(blocks.drop_last(), lines);
        let b = blocks.last();
        match b.kind {
            BlockKind::Image { alt, dest } => {
                let first = spec_line_of_byte(lines, b.range.start as int);
                rest.push(
                    ClaimView {
                        lines: (first, first + 1),
                        bytes: (b.range.start as int, b.range.end as int),
                        payload: PayloadView::Image(alt@, dest@),
                    },
                )
            },
            _ => rest,
        }
    }
}

/// Blocks whose claims can be computed without overflow.
pub open spec fn blocks_ok(blocks: Seq<BlockInfo>) -> bool {
    forall|i: int| 0 <= i < blocks.len() ==> (#[trigger] blocks[i]).range.start < usize::MAX
}

/// The table projector.
pub struct TableProjector;

impl TableProjector {
    /// The projector's name: `table`.
    pub fn name(&self) -> (r: &'static str)
        ensures
            r@ == "table"@,
    {
        "table"
    }

    /// Pure discovery: one claim per table block.
    pub fn discover(&self, text: &str, blocks: &[BlockInfo], lines: &[Range<usize>]) -> (r: Vec<Claim>)
        requires
            blocks_ok(blocks@),
        ensures
            claims_view(r@) == table_claims(blocks@, lines@),
    {
        let mut out: Vec<Claim> = Vec::new();
        let mut i: usize = 0;
        assert(claims_view(out@) =~= Seq::<ClaimView>::empty());
        while i < blocks.len()
            invariant
                i <= blocks@.len(),
                blocks_ok(blocks@),
                claims_view(out@) == table_claims(blocks@.take(i as int), lines@),
            decreases blocks@.len() - i,
        {
            let b = &blocks[i];
            assert(blocks@.take(i + 1).drop_last() =~= blocks@.take(i as int));
            assert(blocks@.take(i + 1).last() == *b);
            if let BlockKind::Table = b.kind {
                let first = line_of_byte(lines, b.range.start);
                let hi = if b.range.end > b.range.start + 1 {
                    b.range.end
                } else {
                    b.range.start + 1
                };
                let last = line_of_byte(lines, hi - 1);
                let nl = lines.len();
                assert(lines@.len() == nl);
                let ghost before = claims_view(out@);
                proof {
                    crate::editor::projection::lemma_line_of_byte_bound(lines@, (hi - 1) as int);
                }
                out.push(
                    Claim {
                        lines: first..last + 1,
                        bytes: b.range.start..b.range.end,
                        payload: Payload::Table(TablePayload),
                    },
                );
                assert(claims_view(out@) =~= before.push(
                    ClaimView {
                        lines: block_lines(lines@, b.range.start as int, b.range.end as int),
                        bytes: (b.range.start as int, b.range.end as int),
                        payload: PayloadView::Table,
                    },
                ));
            }
            i += 1;
        }
        assert(blocks@.take(blocks@.len() as int) =~= blocks@);
        out
    }
}

/// The image projector.
pub struct ImageProjector;

impl ImageProjector {
    /// The projector's name: `image`.
    pub fn name(&self) -> (r: &'static str)
        ensures
            r@ == "image"@,
    {
        "image"
    }

    /// Pure discovery: one single-line claim per whole-line image.
    pub fn discover(&self, text: &str, blocks: &[BlockInfo], lines: &[Range<usize>]) -> (r: Vec<Claim>)
        ensures
            claims_view(r@) == image_claims(blocks@, lines@),
    {
        let mut out: Vec<Claim> = Vec::new();
        let mut i: usize = 0;
        assert(claims_view(out@) =~= Seq::<ClaimView>::empty());
        while i < blocks.len()
            invariant
                i <= blocks@.len(),
                claims_view(out@) == image_claims(blocks@.take(i as int), lines@),
            decreases blocks@.len() - i,
        {
            let b = &blocks[i];
            assert(blocks@.take(i + 1).drop_last() =~= blocks@.take(i as int));
            assert(blocks@.take(i + 1).last() == *b);
            if let BlockKind::Image { alt, dest } = &b.kind {
                let first = line_of_byte(lines, b.range.start);
                let nl = lines.len();
                assert(lines@.len() == nl);
                proof {
                    crate::editor::projection::lemma_line_of_byte_bound(lines@, b.range.start as int);
                }
                let ghost before = claims_view(out@);
                out.push(
                    Claim {
                        lines: first..first + 1,
                        bytes: b.range.start..b.range.end,
                        payload: Payload::Image(ImagePayload { alt: alt.clone(), dest: dest.clone() }),
                    },
                );
                assert(claims_view(out@) =~= before.push(
                    ClaimView {
                        lines: (
                            spec_line_of_byte(lines@, b.range.start as int),
                            spec_line_of_byte(lines@, b.range.start as int) + 1,
                        ),
                        bytes: (b.range.start as int, b.range.end as int),
                        payload: PayloadView::Image(alt@, dest@),
                    },
                ));
            }
            i += 1;
        }
        assert(blocks@.take(blocks@.len() as int) =~= blocks@);
        out
    }
}

/// A discovered claim tagged with its projector's registry index.
pub open spec fn tagged(ix: usize, cs: Seq<ClaimView>) -> Seq<(usize, ClaimView)> {
    Seq::new(cs.len(), |i: int| (ix, cs[i]))
}

pub open spec fn tagged_view(v: Seq<(usize, Claim)>) -> Seq<(usize, ClaimView)> {
    Seq::new(v.len(), |i: int| (v[i].0, claim_view(v[i].1)))
}

/// Run every projector's discovery, in registry order (tables, then
/// images); returns (registry index, claim).
pub fn discover_all(text: &str, blocks: &[BlockInfo], lines: &[Range<usize>]) -> (r: Vec<(usize, Claim)>)
    requires
        blocks_ok(blocks@),
    ensures
        tagged_view(r@) == tagged(0, table_claims(blocks@, lines@)) + tagged(1, image_claims(blocks@, lines@)),
{
    let mut out: Vec<(usize, Claim)> = Vec::new();
    let tables = TableProjector.discover(text, blocks, lines);
    let images = ImageProjector.discover(text, blocks, lines);
    assert(tagged_view(out@) =~= Seq::<(usize, ClaimView)>::empty());
    tag_into(&mut out, tables, 0);
    tag_into(&mut out, images, 1);
    out
}

/// Moves `claims`, in order, to the end of `out`, each tagged `ix`.
fn tag_into(out: &mut Vec<(usize, Claim)>, claims: Vec<Claim>, ix: usize)
    ensures
        tagged_view(final(out)@) == tagged_view(old(out)@) + tagged(ix, claims_view(claims@)),
{
    let ghost start = tagged_view(out@);
    let ghost cv = claims_view(claims@);
    let ghost all = claims@;
    let mut rest = claims;
    let mut k: usize = 0;
    let n = rest.len();
    while rest.len() > 0
        invariant
            k <= n == all.len(),
            rest@ == all.skip(k as int),
            cv == claims_view(all),
            tagged_view(out@) == start + tagged(ix, cv.take(k as int)),
        decreases rest@.len(),
    {
        let c = rest.remove(0);
        assert(c == all[k as int]);
        let ghost before = tagged_view(out@);
        out.push((ix, c));
        assert(tagged_view(out@) =~= before.push((ix, cv[k as int])));
        assert(rest@ =~= all.skip(k + 1));
        assert(tagged_view(out@) =~= start + tagged(ix, cv.take(k + 1)));
        k += 1;
    }
    assert(k == n);
    assert(cv.take(n as int) =~= cv);
}


} // verus!
