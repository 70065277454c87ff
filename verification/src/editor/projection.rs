//! Document projection: which display items the editor list shows.
//! Widgets are claimed by the projectors; this module alone owns the
//! reveal rule -- a claim renders as a widget iff the selection does not
//! touch its source byte range -- plus overlap resolution (first claim
//! wins). Nothing is omitted: a line is either emitted or consumed by a
//! widget that stands in its place.
use vstd::prelude::*;
use core::ops::Range;
use crate::editor::blocks::BlockInfo;
use crate::editor::projector::{claim_view, tagged_view, Claim, ClaimView, Payload, PayloadView, payload_view};

verus! {

#[derive(Debug)]
pub enum Item {
    /// An ordinary source line.
    Line(usize),
    /// A projector's widget consuming a range of source lines.
    Widget { projector: usize, lines: Range<usize>, payload: Payload },
}

/// What identifies an item: a line by its number, a widget by its
/// projector and lines. Payloads are pure functions of the text within
/// `lines`, so they take no part.
pub open spec fn item_key(i: Item) -> (int, int, int, int) {
    match i {
        Item::Line(l) => (0, l as int, 0, 0),
        Item::Widget { projector, lines, .. } => (1, projector as int, lines.start as int, lines.end as int),
    }
}

/// Payloads are pure functions of the text within `lines`, so identity
/// for change-detection purposes is (projector, lines).
impl PartialEq for Item {
    fn eq(&self, other: &Self) -> (r: bool) {
        match (self, other) {
            (Item::Line(a), Item::Line(b)) => *a == *b,
            (
                Item::Widget { projector: p1, lines: l1, .. },
                Item::Widget { projector: p2, lines: l2, .. },
            ) => *p1 == *p2 && l1.start == l2.start && l1.end == l2.end,
            _ => false,
        }
    }
}

impl vstd::std_specs::cmp::PartialEqSpecImpl for Item {
    open spec fn obeys_eq_spec() -> bool {
        true
    }

    open spec fn eq_spec(&self, other: &Item) -> bool {
        item_key(*self) == item_key(*other)
    }
}

/// An item as plain values.
pub enum ItemView {
    Line(int),
    Widget { projector: int, start: int, end: int, payload: PayloadView },
}

pub open spec fn item_view(i: Item) -> ItemView {
    match i {
        Item::Line(l) => ItemView::Line(l as int),
        Item::Widget { projector, lines, payload } => ItemView::Widget {
            projector: projector as int,
            start: lines.start as int,
            end: lines.end as int,
            payload: payload_view(payload),
        },
    }
}

pub open spec fn items_view(v: Seq<Item>) -> Seq<ItemView> {
    Seq::new(v.len(), |i: int| item_view(v[i]))
}

/// The line holding `byte`, scanning from line `i` with `ix` the last
/// one found so far: the last line, before the first that starts past
/// `byte`, whose start is at or before it.
pub open spec fn line_of_byte_from(lines: Seq<Range<usize>>, byte: int, i: int, ix: int) -> int
    decreases lines.len() - i,
{
    if i < 0 || i >= lines.len() {
        ix
    } else if lines[i].start <= byte {
        line_of_byte_from(lines, byte, i + 1, i)
    } else {
        ix
    }
}

/// Index of the last line whose start is <= `byte` (the newline after a
/// line belongs to that line).
pub open spec fn spec_line_of_byte(lines: Seq<Range<usize>>, byte: int) -> int {
    line_of_byte_from(lines, byte, 0, 0)
}

proof fn lemma_line_of_byte_from(lines: Seq<Range<usize>>, byte: int, i: int, ix: int)
    requires
        0 <= i <= lines.len(),
        ix == 0 || ix < lines.len(),
    ensures
        line_of_byte_from(lines, byte, i, ix) == 0 || line_of_byte_from(lines, byte, i, ix) < lines.len(),
        line_of_byte_from(lines, byte, i, ix) >= 0 || ix < 0,
    decreases lines.len() - i,
{
    if i < lines.len() && lines[i].start <= byte {
        lemma_line_of_byte_from(lines, byte, i + 1, i);
    }
}

/// The line index found is 0 or a line of `lines`.
pub proof fn lemma_line_of_byte_bound(lines: Seq<Range<usize>>, byte: int)
    ensures
        0 <= spec_line_of_byte(lines, byte),
        spec_line_of_byte(lines, byte) == 0 || spec_line_of_byte(lines, byte) < lines.len(),
{
    lemma_line_of_byte_from(lines, byte, 0, 0);
}

/// Index of the last line whose start is <= `byte` (the newline after a
/// line belongs to that line).
pub fn line_of_byte(lines: &[Range<usize>], byte: usize) -> (r: usize)
    ensures
        r == spec_line_of_byte(lines@, byte as int),
{
    let mut ix: usize = 0;
    let mut i: usize = 0;
    while i < lines.len()
        invariant
            i <= lines@.len(),
            ix == 0 || ix < lines@.len(),
            spec_line_of_byte(lines@, byte as int) == line_of_byte_from(lines@, byte as int, i as int, ix as int),
        decreases lines@.len() - i,
    {
        if lines[i].start <= byte {
            ix = i;
        } else {
            return ix;
        }
        i += 1;
    }
    ix
}

/// Whether the selection touches a claim's bytes (ends included).
pub open spec fn touches(c: ClaimView, sel: Range<usize>) -> bool {
    c.bytes.0 <= sel.end && sel.start <= c.bytes.1
}

/// The claims the selection leaves alone, in order.
pub open spec fn untouched(cs: Seq<(usize, ClaimView)>, sel: Range<usize>) -> Seq<(usize, ClaimView)>
    decreases cs.len(),
{
    if cs.len() == 0 {
        seq![]
    } else {
        let rest = untouched(cs.drop_last(), sel);
        if touches(cs.last().1, sel) {
            rest
        } else {
            rest.push(cs.last())
        }
    }
}

/// The widget order: by first line, then registry order.
pub open spec fn precedes(a: (usize, ClaimView), b: (usize, ClaimView)) -> bool {
    a.1.lines.0 < b.1.lines.0 || (a.1.lines.0 == b.1.lines.0 && a.0 < b.0)
}

/// Stable insertion of `x`: after every claim it does not precede.
pub open spec fn claim_insert(s: Seq<(usize, ClaimView)>, x: (usize, ClaimView)) -> Seq<(usize, ClaimView)>
    decreases s.len(),
{
    if s.len() == 0 {
        seq![x]
    } else if precedes(x, s.last()) {
        claim_insert(s.drop_last(), x).push(s.last())
    } else {
        s.push(x)
    }
}

/// Stable sort of the claims by `precedes`.
pub open spec fn claim_sort(s: Seq<(usize, ClaimView)>) -> Seq<(usize, ClaimView)>
    decreases s.len(),
{
    if s.len() == 0 {
        seq![]
    } else {
        claim_insert(claim_sort(s.drop_last()), s.last())
    }
}

/// First claim wins: in order, each claim starting before the end of
/// the last kept one is dropped entirely.
pub open spec fn winners(s: Seq<(usize, ClaimView)>, consumed: int) -> Seq<(usize, ClaimView)>
    decreases s.len(),
{
    if s.len() == 0 {
        seq![]
    } else if s[0].1.lines.0 < consumed {
        winners(s.drop_first(), consumed)
    } else {
        seq![s[0]] + winners(s.drop_first(), s[0].1.lines.1)
    }
}

pub open spec fn widget_of(w: (usize, ClaimView)) -> ItemView {
    ItemView::Widget { projector: w.0 as int, start: w.1.lines.0, end: w.1.lines.1, payload: w.1.payload }
}

/// The items from `line` on, with the widgets `ws[wi..]` still to place.
pub open spec fn emit(n: int, ws: Seq<(usize, ClaimView)>, wi: int, line: int) -> Seq<ItemView>
    decreases (if line < n {
        n - line
    } else {
        0
    }),
{
    if line >= n {
        seq![]
    } else if 0 <= wi < ws.len() && ws[wi].1.lines.0 == line && ws[wi].1.lines.1 > line {
        seq![widget_of(ws[wi])] + emit(n, ws, wi + 1, ws[wi].1.lines.1)
    } else {
        seq![ItemView::Line(line)] + emit(n, ws, wi, line + 1)
    }
}

/// The projected items for the lines, the tagged claims and the
/// selection.
pub open spec fn spec_project(n: int, claims: Seq<(usize, ClaimView)>, sel: Range<usize>) -> Seq<ItemView> {
    emit(n, winners(claim_sort(untouched(claims, sel)), 0), 0, 0)
}

/// Every claim consumes at least one line.
pub open spec fn claims_ok(claims: Seq<(usize, Claim)>) -> bool {
    forall|i: int| 0 <= i < claims.len() ==> (#[trigger] claims[i]).1.lines.start < claims[i].1.lines.end
}

pub open spec fn pick(cs: Seq<(usize, ClaimView)>, idx: Seq<usize>) -> Seq<(usize, ClaimView)> {
    Seq::new(idx.len(), |i: int| cs[idx[i] as int])
}

fn precedes_exec(claims: &[(usize, Claim)], a: usize, b: usize) -> (r: bool)
    requires
        a < claims@.len(),
        b < claims@.len(),
    ensures
        r == precedes(tagged_view(claims@)[a as int], tagged_view(claims@)[b as int]),
{
    let sa = claims[a].1.lines.start;
    let sb = claims[b].1.lines.start;
    sa < sb || (sa == sb && claims[a].0 < claims[b].0)
}

fn insert_index(claims: &[(usize, Claim)], v: &mut Vec<usize>, x: usize)
    requires
        x < claims@.len(),
        forall|i: int| 0 <= i < old(v)@.len() ==> (#[trigger] old(v)@[i]) < claims@.len(),
    ensures
        pick(tagged_view(claims@), final(v)@) == claim_insert(pick(tagged_view(claims@), old(v)@), tagged_view(claims@)[x as int]),
        forall|i: int| 0 <= i < final(v)@.len() ==> (#[trigger] final(v)@[i]) < claims@.len(),
{
    let ghost cs = tagged_view(claims@);
    let ghost raw = v@;
    let ghost orig = pick(cs, raw);
    let ghost xv = cs[x as int];
    let mut j = v.len();
    assert(orig.take(j as int) =~= orig);
    assert(orig.skip(j as int) =~= seq![]);
    while j > 0 && precedes_exec(claims, x, v[j - 1])
        invariant
            j <= v@.len(),
            v@ == raw,
            orig == pick(cs, raw),
            cs == tagged_view(claims@),
            x < claims@.len(),
            xv == cs[x as int],
            forall|i: int| 0 <= i < raw.len() ==> (#[trigger] raw[i]) < claims@.len(),
            claim_insert(orig, xv) == claim_insert(orig.take(j as int), xv) + orig.skip(j as int),
        decreases j,
    {
        let ghost t = orig.take(j as int);
        assert(t.drop_last() =~= orig.take(j - 1));
        assert(t.last() == orig[j - 1]);
        assert(orig.skip(j - 1) =~= seq![orig[j - 1]] + orig.skip(j as int));
        assert(claim_insert(t, xv) == claim_insert(orig.take(j - 1), xv).push(orig[j - 1]));
        assert(claim_insert(t, xv) + orig.skip(j as int) =~= claim_insert(orig.take(j - 1), xv)
            + orig.skip(j - 1));
        j -= 1;
    }
    assert(claim_insert(orig.take(j as int), xv) =~= orig.take(j as int).push(xv)) by {
        if j > 0 {
            assert(orig.take(j as int).last() == orig[j - 1]);
        }
    }
    v.insert(j, x);
    assert(pick(cs, v@) =~= orig.take(j as int).push(xv) + orig.skip(j as int));
}

pub fn project(
    lines: &[Range<usize>],
    blocks: &[BlockInfo],
    claims: &[(usize, Claim)],
    selection: Range<usize>,
) -> (r: Vec<Item>)
    requires
        claims_ok(claims@),
    ensures
        items_view(r@) == spec_project(lines@.len() as int, tagged_view(claims@), selection),
{
    let ghost cs = tagged_view(claims@);
    // Widgets: untouched claims, sorted (start line, registry order).
    let mut keep: Vec<usize> = Vec::new();
    let mut i: usize = 0;
    assert(cs.take(0) =~= Seq::<(usize, ClaimView)>::empty());
    assert(pick(cs, keep@) =~= Seq::<(usize, ClaimView)>::empty());
    while i < claims.len()
        invariant
            i <= claims@.len(),
            cs == tagged_view(claims@),
            forall|k: int| 0 <= k < keep@.len() ==> (#[trigger] keep@[k]) < claims@.len(),
            pick(cs, keep@) == untouched(cs.take(i as int), selection),
        decreases claims@.len() - i,
    {
        assert(cs.take(i + 1).drop_last() =~= cs.take(i as int));
        assert(cs.take(i + 1).last() == cs[i as int]);
        let c = &claims[i].1;
        if !(c.bytes.start <= selection.end && selection.start <= c.bytes.end) {
            let ghost before = keep@;
            keep.push(i);
            assert(pick(cs, keep@) =~= pick(cs, before).push(cs[i as int]));
        }
        i += 1;
    }
    assert(cs.take(i as int) =~= cs);
    let ghost kept = pick(cs, keep@);
    let mut sorted: Vec<usize> = Vec::new();
    let mut k: usize = 0;
    assert(kept.take(0) =~= Seq::<(usize, ClaimView)>::empty());
    assert(pick(cs, sorted@) =~= Seq::<(usize, ClaimView)>::empty());
    while k < keep.len()
        invariant
            k <= keep@.len(),
            cs == tagged_view(claims@),
            kept == pick(cs, keep@),
            forall|q: int| 0 <= q < keep@.len() ==> (#[trigger] keep@[q]) < claims@.len(),
            forall|q: int| 0 <= q < sorted@.len() ==> (#[trigger] sorted@[q]) < claims@.len(),
            pick(cs, sorted@) == claim_sort(kept.take(k as int)),
        decreases keep@.len() - k,
    {
        assert(kept.take(k + 1).drop_last() =~= kept.take(k as int));
        assert(kept.take(k + 1).last() == cs[keep@[k as int] as int]);
        insert_index(claims, &mut sorted, keep[k]);
        k += 1;
    }
    assert(kept.take(k as int) =~= kept);
    // First claim wins on overlap; losers are dropped entirely.
    let ghost srt = pick(cs, sorted@);
    let mut widgets: Vec<usize> = Vec::new();
    let mut consumed_until: usize = 0;
    let mut j: usize = 0;
    assert(srt.skip(0) =~= srt);
    assert(pick(cs, widgets@) =~= Seq::<(usize, ClaimView)>::empty());
    while j < sorted.len()
        invariant
            j <= sorted@.len(),
            cs == tagged_view(claims@),
            srt == pick(cs, sorted@),
            forall|q: int| 0 <= q < sorted@.len() ==> (#[trigger] sorted@[q]) < claims@.len(),
            forall|q: int| 0 <= q < widgets@.len() ==> (#[trigger] widgets@[q]) < claims@.len(),
            winners(srt, 0) == pick(cs, widgets@) + winners(srt.skip(j as int), consumed_until as int),
        decreases sorted@.len() - j,
    {
        let w = sorted[j];
        assert(srt.skip(j as int).drop_first() =~= srt.skip(j + 1));
        assert(srt.skip(j as int)[0] == cs[w as int]);
        if claims[w].1.lines.start >= consumed_until {
            let ghost before = pick(cs, widgets@);
            widgets.push(w);
            consumed_until = claims[w].1.lines.end;
            assert(pick(cs, widgets@) =~= before + seq![cs[w as int]]);
        }
        j += 1;
    }
    assert(srt.skip(j as int) =~= Seq::<(usize, ClaimView)>::empty());
    let ghost ws = pick(cs, widgets@);
    let n = lines.len();
    let mut items: Vec<Item> = Vec::new();
    let mut widget_ix: usize = 0;
    let mut line: usize = 0;
    assert(items_view(items@) =~= Seq::<ItemView>::empty());
    while line < n
        invariant
            n == lines@.len(),
            cs == tagged_view(claims@),
            ws == pick(cs, widgets@),
            claims_ok(claims@),
            forall|q: int| 0 <= q < widgets@.len() ==> (#[trigger] widgets@[q]) < claims@.len(),
            widget_ix <= widgets@.len(),
            line <= n || items_view(items@) == emit(n as int, ws, 0, 0),
            emit(n as int, ws, 0, 0) == items_view(items@) + emit(n as int, ws, widget_ix as int, line as int),
        decreases (if line < n {
            n - line
        } else {
            0
        }),
    {
        let ghost before = items_view(items@);
        if widget_ix < widgets.len() && claims[widgets[widget_ix]].1.lines.start == line {
            let w = widgets[widget_ix];
            let c = &claims[w].1;
            assert(claims@[w as int].1.lines.start < claims@[w as int].1.lines.end);
            assert(ws[widget_ix as int] == cs[w as int]);
            items.push(
                Item::Widget {
                    projector: claims[w].0,
                    lines: c.lines.start..c.lines.end,
                    payload: c.payload.duplicate(),
                },
            );
            assert(items_view(items@) =~= before + seq![widget_of(ws[widget_ix as int])]);
            line = c.lines.end;
            widget_ix += 1;
        } else {
            items.push(Item::Line(line));
            assert(items_view(items@) =~= before + seq![ItemView::Line(line as int)]);
            line += 1;
        }
    }
    items
}

/// The line after an item.
pub open spec fn next_line(i: ItemView) -> int {
    match i {
        ItemView::Line(l) => l + 1,
        ItemView::Widget { end, .. } => end,
    }
}

/// The items show the lines from `from` on, each item starting where
/// the one before it stopped, until at least line `n`.
pub open spec fn tiles(items: Seq<ItemView>, from: int, n: int) -> bool
    decreases items.len(),
{
    if items.len() == 0 {
        from >= n
    } else {
        &&& first_line(items[0]) == from
        &&& from < n
        &&& next_line(items[0]) > from
        &&& tiles(items.drop_first(), next_line(items[0]), n)
    }
}

proof fn lemma_emit_tiles(n: int, ws: Seq<(usize, ClaimView)>, wi: int, line: int)
    ensures
        tiles(emit(n, ws, wi, line), line, n),
    decreases (if line < n {
        n - line
    } else {
        0
    }),
{
    let e = emit(n, ws, wi, line);
    if line < n {
        if 0 <= wi < ws.len() && ws[wi].1.lines.0 == line && ws[wi].1.lines.1 > line {
            lemma_emit_tiles(n, ws, wi + 1, ws[wi].1.lines.1);
            assert(e.drop_first() =~= emit(n, ws, wi + 1, ws[wi].1.lines.1));
        } else {
            lemma_emit_tiles(n, ws, wi, line + 1);
            assert(e.drop_first() =~= emit(n, ws, wi, line + 1));
        }
    }
}

/// Nothing is omitted: the projected items show every line from the
/// first to the last, each exactly once and in order; a widget stands in
/// for the lines it consumes.
pub proof fn lemma_projection_tiles(n: nat, claims: Seq<(usize, ClaimView)>, sel: Range<usize>)
    ensures
        tiles(spec_project(n as int, claims, sel), 0, n as int),
{
    lemma_emit_tiles(n as int, winners(claim_sort(untouched(claims, sel)), 0), 0, 0);
}

proof fn lemma_untouched_from(cs: Seq<(usize, ClaimView)>, sel: Range<usize>, x: (usize, ClaimView))
    requires
        untouched(cs, sel).contains(x),
    ensures
        cs.contains(x),
        !touches(x.1, sel),
    decreases cs.len(),
{
    let rest = untouched(cs.drop_last(), sel);
    if cs.len() > 0 {
        if rest.contains(x) {
            lemma_untouched_from(cs.drop_last(), sel, x);
            let i = choose|i: int| 0 <= i < cs.drop_last().len() && cs.drop_last()[i] == x;
            assert(cs[i] == x);
        } else {
            let u = untouched(cs, sel);
            let i = choose|i: int| 0 <= i < u.len() && u[i] == x;
            assert(!touches(cs.last().1, sel) && i == rest.len());
            assert(cs[cs.len() - 1] == x);
        }
    }
}

proof fn lemma_insert_from(s: Seq<(usize, ClaimView)>, x: (usize, ClaimView), y: (usize, ClaimView))
    requires
        claim_insert(s, x).contains(y),
    ensures
        s.contains(y) || y == x,
    decreases s.len(),
{
    let t = claim_insert(s, x);
    let i = choose|i: int| 0 <= i < t.len() && t[i] == y;
    if s.len() > 0 {
        if precedes(x, s.last()) {
            let r = claim_insert(s.drop_last(), x);
            if i < r.len() {
                assert(r[i] == y);
                lemma_insert_from(s.drop_last(), x, y);
                if s.drop_last().contains(y) {
                    let j = choose|j: int| 0 <= j < s.drop_last().len() && s.drop_last()[j] == y;
                    assert(s[j] == y);
                }
            } else {
                assert(s[s.len() - 1] == y);
            }
        } else {
            if i < s.len() {
                assert(s[i] == y);
            }
        }
    }
}

proof fn lemma_sort_from(s: Seq<(usize, ClaimView)>, y: (usize, ClaimView))
    requires
        claim_sort(s).contains(y),
    ensures
        s.contains(y),
    decreases s.len(),
{
    if s.len() > 0 {
        lemma_insert_from(claim_sort(s.drop_last()), s.last(), y);
        if claim_sort(s.drop_last()).contains(y) {
            lemma_sort_from(s.drop_last(), y);
            let j = choose|j: int| 0 <= j < s.drop_last().len() && s.drop_last()[j] == y;
            assert(s[j] == y);
        } else {
            assert(s[s.len() - 1] == y);
        }
    }
}

proof fn lemma_winners_from(s: Seq<(usize, ClaimView)>, consumed: int, y: (usize, ClaimView))
    requires
        winners(s, consumed).contains(y),
    ensures
        s.contains(y),
    decreases s.len(),
{
    let w = winners(s, consumed);
    let i = choose|i: int| 0 <= i < w.len() && w[i] == y;
    if s.len() > 0 {
        if s[0].1.lines.0 < consumed {
            lemma_winners_from(s.drop_first(), consumed, y);
        } else if i > 0 {
            let r = winners(s.drop_first(), s[0].1.lines.1);
            assert(r[i - 1] == y);
            lemma_winners_from(s.drop_first(), s[0].1.lines.1, y);
        } else {
            assert(s[0] == y);
        }
        if s.drop_first().contains(y) {
            let j = choose|j: int| 0 <= j < s.drop_first().len() && s.drop_first()[j] == y;
            assert(s[j + 1] == y);
        }
    }
}

proof fn lemma_emit_widgets(n: int, ws: Seq<(usize, ClaimView)>, wi: int, line: int, k: int)
    requires
        0 <= k < emit(n, ws, wi, line).len(),
        emit(n, ws, wi, line)[k] is Widget,
    ensures
        exists|q: int| 0 <= q < ws.len() && emit(n, ws, wi, line)[k] == widget_of(#[trigger] ws[q]),
    decreases (if line < n {
        n - line
    } else {
        0
    }),
{
    let e = emit(n, ws, wi, line);
    if line < n {
        if 0 <= wi < ws.len() && ws[wi].1.lines.0 == line && ws[wi].1.lines.1 > line {
            if k > 0 {
                assert(e[k] == emit(n, ws, wi + 1, ws[wi].1.lines.1)[k - 1]);
                lemma_emit_widgets(n, ws, wi + 1, ws[wi].1.lines.1, k - 1);
            } else {
                assert(e[0] == widget_of(ws[wi]));
            }
        } else {
            assert(k > 0);
            assert(e[k] == emit(n, ws, wi, line + 1)[k - 1]);
            lemma_emit_widgets(n, ws, wi, line + 1, k - 1);
        }
    }
}

/// The reveal rule: every widget the projection shows stands for a claim
/// the selection does not touch.
pub proof fn lemma_widgets_are_untouched_claims(n: nat, claims: Seq<(usize, ClaimView)>, sel: Range<usize>, k: int)
    requires
        0 <= k < spec_project(n as int, claims, sel).len(),
        spec_project(n as int, claims, sel)[k] is Widget,
    ensures
        exists|j: int|
            0 <= j < claims.len() && spec_project(n as int, claims, sel)[k] == widget_of(#[trigger] claims[j])
                && !touches(claims[j].1, sel),
{
    let u = untouched(claims, sel);
    let srt = claim_sort(u);
    let ws = winners(srt, 0);
    lemma_emit_widgets(n as int, ws, 0, 0, k);
    let q = choose|q: int| 0 <= q < ws.len() && spec_project(n as int, claims, sel)[k] == widget_of(#[trigger] ws[q]);
    let y = ws[q];
    assert(ws.contains(y));
    lemma_winners_from(srt, 0, y);
    lemma_sort_from(u, y);
    lemma_untouched_from(claims, sel, y);
    let j = choose|j: int| 0 <= j < claims.len() && claims[j] == y;
    assert(widget_of(claims[j]) == widget_of(y));
}

/// The first line an item shows.
pub open spec fn first_line(i: ItemView) -> int {
    match i {
        ItemView::Line(l) => l,
        ItemView::Widget { start, .. } => start,
    }
}

/// Whether an item shows (or consumes) `line`.
pub open spec fn shows(i: ItemView, line: int) -> bool {
    match i {
        ItemView::Line(l) => l == line,
        ItemView::Widget { start, end, .. } => start <= line < end,
    }
}

/// The item showing `line`, scanning from `i` with `best` the last item
/// so far that starts at or before it.
pub open spec fn item_of_line_from(items: Seq<ItemView>, line: int, i: int, best: int) -> int
    decreases items.len() - i,
{
    if i < 0 || i >= items.len() {
        best
    } else if first_line(items[i]) > line {
        best
    } else if shows(items[i], line) {
        i
    } else {
        item_of_line_from(items, line, i + 1, i)
    }
}

/// The item showing (or nearest to) the given source line.
pub fn item_of_line(items: &[Item], line: usize) -> (r: usize)
    ensures
        r == item_of_line_from(items_view(items@), line as int, 0, 0),
{
    let ghost iv = items_view(items@);
    let mut best: usize = 0;
    let mut i: usize = 0;
    while i < items.len()
        invariant
            i <= items@.len(),
            iv == items_view(items@),
            item_of_line_from(iv, line as int, 0, 0) == item_of_line_from(iv, line as int, i as int, best as int),
        decreases items@.len() - i,
    {
        let (first, hit) = match &items[i] {
            Item::Line(l) => (*l, *l == line),
            Item::Widget { lines, .. } => (lines.start, lines.start <= line && line < lines.end),
        };
        if first > line {
            return best;
        }
        best = i;
        if hit {
            return i;
        }
        i += 1;
    }
    best
}

} // verus!
