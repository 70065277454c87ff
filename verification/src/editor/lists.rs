//! List-item analysis behind Enter-continuation and Tab indenting, and
//! the renumbering of ordered lists. Pure line inspection: the editor
//! decides what edit to make.
use vstd::prelude::*;
use vstd::utf8::*;
use vstd::string::*;
use core::ops::Range;
use crate::editor::blocks::{
    blocks, blocks_view, md_events, scan_upto, spec_blocks, BlockInfo, BlockKind, BlockView, KindView,
    MdEventView,
};
use crate::text::{
    all_whitespace, ascii_str, dec_value, decimal, is_digit, is_ws, lemma_ascii_boundary, lemma_next_nl, next_nl,
    parse_digits, pow10, push_decimal, push_str, sbytes, substr,
};

verus! {

broadcast use vstd::utf8::encode_utf8_valid_utf8, vstd::utf8::is_char_boundary_start_end_of_seq;

/// A recognized list marker at the start of a line.
#[derive(Debug, PartialEq, Eq)]
pub struct ListItem {
    /// Leading whitespace bytes before the marker.
    pub indent: usize,
    /// Marker bytes after the indent, including its trailing space
    /// (and the `[ ] ` box on task items).
    pub marker_len: usize,
    /// Nothing but the marker on this line.
    pub content_empty: bool,
    /// Marker a continuation line should carry (numbers increment,
    /// task boxes reset to unchecked).
    pub next_marker: String,
    /// Spaces one Tab press adds or removes for this item.
    pub indent_step: usize,
}

/// What a list item is made of, as plain values: indent, marker
/// length, whether the content is empty, the next marker's bytes, and
/// the indent step.
pub struct ListItemSpec {
    pub indent: int,
    pub marker_len: int,
    pub content_empty: bool,
    pub next_marker: Seq<u8>,
    pub indent_step: int,
}

pub open spec fn item_view(it: ListItem) -> ListItemSpec {
    ListItemSpec {
        indent: it.indent as int,
        marker_len: it.marker_len as int,
        content_empty: it.content_empty,
        next_marker: sbytes(it.next_marker),
        indent_step: it.indent_step as int,
    }
}

pub open spec fn is_blank_byte(x: u8) -> bool {
    x == 32 || x == 9
}

/// The number of spaces and tabs starting at `i`.
pub open spec fn indent_len(b: Seq<u8>, i: int) -> int
    decreases b.len() - i,
{
    if 0 <= i < b.len() && is_blank_byte(b[i]) {
        1 + indent_len(b, i + 1)
    } else {
        0
    }
}

/// The number of ASCII digits starting at `i`.
pub open spec fn digit_run(b: Seq<u8>, i: int) -> int
    decreases b.len() - i,
{
    if 0 <= i < b.len() && is_digit(b[i]) {
        1 + digit_run(b, i + 1)
    } else {
        0
    }
}

pub proof fn lemma_indent_len(b: Seq<u8>, i: int)
    requires
        0 <= i <= b.len(),
    ensures
        0 <= indent_len(b, i) <= b.len() - i,
        forall|k: int| i <= k < i + indent_len(b, i) ==> is_blank_byte(#[trigger] b[k]),
        i + indent_len(b, i) < b.len() ==> !is_blank_byte(b[i + indent_len(b, i)]),
    decreases b.len() - i,
{
    if i < b.len() && is_blank_byte(b[i]) {
        lemma_indent_len(b, i + 1);
    }
}

pub proof fn lemma_digit_run(b: Seq<u8>, i: int)
    requires
        0 <= i <= b.len(),
    ensures
        0 <= digit_run(b, i) <= b.len() - i,
        forall|k: int| i <= k < i + digit_run(b, i) ==> is_digit(#[trigger] b[k]),
        i + digit_run(b, i) < b.len() ==> !is_digit(b[i + digit_run(b, i)]),
    decreases b.len() - i,
{
    if i < b.len() && is_digit(b[i]) {
        lemma_digit_run(b, i + 1);
    }
}

/// The marker part of a list line `r` (the line after its indent):
/// marker length, next marker, indent step.
pub open spec fn marker_of(r: Seq<u8>) -> Option<(int, Seq<u8>, int)> {
    if r.len() >= 2 && (r[0] == 45 || r[0] == 42 || r[0] == 43) && r[1] == 32 {
        let task = r.len() >= 6 && r[2] == 91 && (r[3] == 32 || r[3] == 120 || r[3] == 88) && r[4]
            == 93 && r[5] == 32;
        if task {
            Some((6, seq![r[0], 32u8, 91u8, 32u8, 93u8, 32u8], 2))
        } else {
            Some((2, seq![r[0], 32u8], 2))
        }
    } else {
        let d = digit_run(r, 0);
        if d == 0 || d > 9 || !(d < r.len() && (r[d] == 46 || r[d] == 41)) || !(d + 1 < r.len()
            && r[d + 1] == 32) {
            None
        } else {
            Some((d + 2, decimal(dec_value(r.subrange(0, d)) + 1) + seq![r[d], 32u8], d + 2))
        }
    }
}

/// `line` (without its newline) read as a list item.
pub open spec fn spec_list_item(b: Seq<u8>) -> Option<ListItemSpec> {
    let ind = indent_len(b, 0);
    let r = b.subrange(ind, b.len() as int);
    match marker_of(r) {
        None => None,
        Some((m0, next, step)) => {
            // A bare marker followed only by blanks is an empty item.
            let m = if m0 < r.len() && (forall|k: int| m0 <= k < r.len() ==> is_blank_byte(r[k])) {
                r.len() as int
            } else {
                m0
            };
            Some(
                ListItemSpec {
                    indent: ind,
                    marker_len: m,
                    content_empty: r.len() == m,
                    next_marker: next,
                    indent_step: step,
                },
            )
        },
    }
}

fn count_indent(b: &[u8], i: usize) -> (n: usize)
    requires
        i <= b@.len(),
    ensures
        n == indent_len(b@, i as int),
{
    proof {
        lemma_indent_len(b@, i as int);
    }
    let mut k = i;
    while k < b.len() && (b[k] == 32u8 || b[k] == 9u8)
        invariant
            i <= k <= b@.len(),
            indent_len(b@, i as int) == (k - i) + indent_len(b@, k as int),
        decreases b@.len() - k,
    {
        k += 1;
    }
    k - i
}

fn count_digits(b: &[u8], i: usize) -> (n: usize)
    requires
        i <= b@.len(),
    ensures
        n == digit_run(b@, i as int),
{
    proof {
        lemma_digit_run(b@, i as int);
    }
    let mut k = i;
    while k < b.len() && 48u8 <= b[k] && b[k] <= 57u8
        invariant
            i <= k <= b@.len(),
            digit_run(b@, i as int) == (k - i) + digit_run(b@, k as int),
        decreases b@.len() - k,
    {
        k += 1;
    }
    k - i
}

fn blank_from(b: &[u8], i: usize) -> (r: bool)
    requires
        i <= b@.len(),
    ensures
        r == (forall|k: int| i <= k < b@.len() ==> is_blank_byte(#[trigger] b@[k])),
{
    let mut k = i;
    while k < b.len()
        invariant
            i <= k <= b@.len(),
            forall|m: int| i <= m < k ==> is_blank_byte(#[trigger] b@[m]),
        decreases b@.len() - k,
    {
        if !(b[k] == 32u8 || b[k] == 9u8) {
            return false;
        }
        k += 1;
    }
    true
}

/// The marker after `indent` leading blanks of `b`, computed.
fn read_marker(b: &[u8], indent: usize) -> (r: Option<(usize, String, usize)>)
    requires
        indent <= b@.len(),
    ensures
        r is None <==> marker_of(b@.subrange(indent as int, b@.len() as int)) is None,
        r matches Some((m, next, step)) ==> marker_of(b@.subrange(indent as int, b@.len() as int))
            == Some((m as int, sbytes(next), step as int)),
{
    let ghost bs = b@;
    let n = b.len();
    let ghost r = bs.subrange(indent as int, n as int);
    let rlen = n - indent;
    let mut next = String::new();
    if rlen >= 2 && (b[indent] == 45u8 || b[indent] == 42u8 || b[indent] == 43u8) && b[indent + 1]
        == 32u8 {
        let task = rlen >= 6 && b[indent + 2] == 91u8 && (b[indent + 3] == 32u8 || b[indent + 3]
            == 120u8 || b[indent + 3] == 88u8) && b[indent + 4] == 93u8 && b[indent + 5] == 32u8;
        push_str(&mut next, ascii_str(b[indent]));
        push_str(&mut next, ascii_str(32u8));
        if task {
            push_str(&mut next, ascii_str(91u8));
            push_str(&mut next, ascii_str(32u8));
            push_str(&mut next, ascii_str(93u8));
            push_str(&mut next, ascii_str(32u8));
            assert(sbytes(next) =~= (marker_of(r)->0).1);
            Some((6, next, 2))
        } else {
            assert(sbytes(next) =~= (marker_of(r)->0).1);
            Some((2, next, 2))
        }
    } else {
        let digits = count_digits(b, indent);
        proof {
            lemma_digit_run(bs, indent as int);
            lemma_digit_run_shift(bs, indent as int, 0);
        }
        if digits == 0 || digits > 9 {
            return None;
        }
        if !(digits < rlen && (b[indent + digits] == 46u8 || b[indent + digits] == 41u8)) {
            return None;
        }
        if !(digits + 1 < rlen && b[indent + digits + 1] == 32u8) {
            return None;
        }
        let v = parse_digits(b, indent, digits);
        assert(bs.subrange(indent as int, indent + digits) =~= r.subrange(0, digits as int));
        proof {
            crate::text::lemma_pow10_mono(digits as nat, 9);
            assert(pow10(9) == 1_000_000_000) by {
                reveal_with_fuel(pow10, 10);
            }
        }
        push_decimal(&mut next, v + 1);
        push_str(&mut next, ascii_str(b[indent + digits]));
        push_str(&mut next, ascii_str(32u8));
        assert(sbytes(next) =~= (marker_of(r)->0).1);
        Some((digits + 2, next, digits + 2))
    }
}

/// Parse `line` (without its newline) as a list item.
pub fn list_item(line: &str) -> (r: Option<ListItem>)
    ensures
        r is None <==> spec_list_item(line.spec_bytes()) is None,
        r matches Some(it) ==> spec_list_item(line.spec_bytes()) == Some(item_view(it)),
{
    let b = line.as_bytes();
    let ghost bs = b@;
    let n = b.len();
    let indent = count_indent(b, 0);
    proof {
        lemma_indent_len(bs, 0);
    }
    let ghost r = bs.subrange(indent as int, n as int);
    let rlen = n - indent;
    let (marker_len, next, indent_step) = match read_marker(b, indent) {
        None => {
            return None;
        },
        Some(x) => x,
    };
    let mut m = marker_len;
    if m < rlen && blank_from(b, indent + m) {
        assert forall|k: int| m <= k < r.len() implies is_blank_byte(#[trigger] r[k]) by {
            assert(r[k] == bs[indent + k]);
        }
        m = rlen;
    } else {
        if m < rlen {
            assert(!(forall|k: int| m <= k < r.len() ==> is_blank_byte(#[trigger] r[k]))) by {
                let w = choose|k: int| indent + m <= k < bs.len() && !is_blank_byte(#[trigger] bs[k]);
                assert(r[w - indent] == bs[w]);
            }
        }
    }
    Some(
        ListItem {
            indent,
            marker_len: m,
            content_empty: rlen == m,
            next_marker: next,
            indent_step,
        },
    )
}

proof fn lemma_digit_run_shift(b: Seq<u8>, a: int, i: int)
    requires
        0 <= a <= b.len(),
        0 <= i,
    ensures
        digit_run(b.subrange(a, b.len() as int), i) == digit_run(b, a + i),
    decreases b.len() - a - i,
{
    let r = b.subrange(a, b.len() as int);
    if i < r.len() && is_digit(r[i]) {
        lemma_digit_run_shift(b, a, i + 1);
    }
}


/// Whether byte `at` lies inside one of the fenced code bodies.
pub open spec fn in_fences(fences: Seq<Range<usize>>, at: int) -> bool {
    exists|i: int| 0 <= i < fences.len() && (#[trigger] fences[i]).start <= at < fences[i].end
}

/// Drops the runs at indent `ind` or deeper.
pub open spec fn pop_ge(stack: Seq<(int, int)>, ind: int) -> Seq<(int, int)>
    decreases stack.len(),
{
    if stack.len() > 0 && stack.last().0 >= ind {
        pop_ge(stack.drop_last(), ind)
    } else {
        stack
    }
}

/// Drops the runs deeper than indent `ind`.
pub open spec fn pop_gt(stack: Seq<(int, int)>, ind: int) -> Seq<(int, int)>
    decreases stack.len(),
{
    if stack.len() > 0 && stack.last().0 > ind {
        pop_gt(stack.drop_last(), ind)
    } else {
        stack
    }
}

/// The renumbering state: the open ordered runs as (indent, current
/// number), whether any ordered item was seen, and the output so far.
pub struct RenumState {
    pub stack: Seq<(int, int)>,
    pub found: bool,
    pub out: Seq<u8>,
}

/// Whether a line is blank (`line.trim().is_empty()`).
pub open spec fn blank_line(lb: Seq<u8>) -> bool {
    forall|k: int| 0 <= k < decode_utf8(lb).len() ==> is_ws(#[trigger] decode_utf8(lb)[k])
}

/// An ordered item line `lb` with `d` digits after its indent `ind`,
/// renumbered: it continues the run open at its indent, or opens one
/// at the number the author wrote.
pub open spec fn renum_ordered(lb: Seq<u8>, ind: int, d: int, last: bool, st: RenumState) -> RenumState {
    let nl: Seq<u8> = if last {
        seq![]
    } else {
        seq![10u8]
    };
    let rest = lb.subrange(ind, lb.len() as int);
    let s1 = pop_gt(st.stack, ind);
    let cont = s1.len() > 0 && s1.last().0 == ind;
    let n = if cont {
        s1.last().1 + 1
    } else {
        dec_value(rest.subrange(0, d)) as int
    };
    let stack = if cont {
        s1.drop_last().push((ind, n))
    } else {
        s1.push((ind, n))
    };
    RenumState {
        stack,
        found: true,
        out: st.out + lb.subrange(0, ind) + decimal(n as nat) + rest.subrange(d, rest.len() as int)
            + nl,
    }
}

/// One line of the block (bytes `lb`, starting at document offset
/// `at`), processed.
pub open spec fn renum_line(fences: Seq<Range<usize>>, at: int, lb: Seq<u8>, last: bool, st: RenumState) -> RenumState {
    let nl: Seq<u8> = if last {
        seq![]
    } else {
        seq![10u8]
    };
    if in_fences(fences, at) {
        RenumState { out: st.out + lb + nl, ..st }
    } else {
        match spec_list_item(lb) {
            None => {
                let stack = if blank_line(lb) {
                    seq![]
                } else {
                    pop_ge(st.stack, indent_len(lb, 0))
                };
                RenumState { stack, found: st.found, out: st.out + lb + nl }
            },
            Some(item) => {
                let rest = lb.subrange(item.indent, lb.len() as int);
                let d = digit_run(rest, 0);
                if d == 0 {
                    RenumState { out: st.out + lb + nl, ..st }
                } else {
                    renum_ordered(lb, item.indent, d, last, st)
                }
            },
        }
    }
}

/// The lines of `t[p..end]` (split on `\n`), processed in order.
pub open spec fn renum_from(t: Seq<u8>, fences: Seq<Range<usize>>, p: int, end: int, st: RenumState) -> RenumState
    decreases end - p,
{
    if p < 0 || p > end || end > t.len() {
        st
    } else {
        let nl = next_nl(t, p, end);
        let st2 = renum_line(fences, p, t.subrange(p, nl), nl >= end, st);
        if nl >= end {
            st2
        } else {
            proof {
                lemma_next_nl(t, p, end);
            }
            renum_from(t, fences, nl + 1, end, st2)
        }
    }
}

/// The renumbered block, or `None` when it holds no ordered item.
pub open spec fn spec_renumber_block(text: &str, block: Range<usize>, fences: Seq<Range<usize>>) -> Option<Seq<u8>> {
    let st = renum_from(
        text.spec_bytes(),
        fences,
        block.start as int,
        block.end as int,
        RenumState { stack: seq![], found: false, out: seq![] },
    );
    if st.found {
        Some(st.out)
    } else {
        None
    }
}

pub open spec fn stack_view(v: Seq<(usize, u64)>) -> Seq<(int, int)> {
    Seq::new(v.len(), |i: int| (v[i].0 as int, v[i].1 as int))
}

pub open spec fn block_ok(text: &str, block: Range<usize>) -> bool {
    &&& block.start <= block.end <= text.spec_bytes().len()
    &&& crate::text::boundary(text, block.start as int)
    &&& crate::text::boundary(text, block.end as int)
    &&& text.spec_bytes().len() + 2_000_000_000 <= u64::MAX
}

fn in_fence(fences: &[Range<usize>], at: usize) -> (r: bool)
    ensures
        r == in_fences(fences@, at as int),
{
    let mut i: usize = 0;
    while i < fences.len()
        invariant
            i <= fences@.len(),
            forall|k: int| 0 <= k < i ==> !((#[trigger] fences@[k]).start <= at < fences@[k].end),
        decreases fences@.len() - i,
    {
        if fences[i].start <= at && at < fences[i].end {
            return true;
        }
        i += 1;
    }
    false
}

fn pop_while(stack: &mut Vec<(usize, u64)>, ind: usize, or_equal: bool)
    ensures
        stack_view(final(stack)@) == if or_equal {
            pop_ge(stack_view(old(stack)@), ind as int)
        } else {
            pop_gt(stack_view(old(stack)@), ind as int)
        },
        final(stack)@.len() <= old(stack)@.len(),
        final(stack)@ == old(stack)@.take(final(stack)@.len() as int),
        forall|b: int| counts_below(old(stack)@, b) ==> #[trigger] counts_below(final(stack)@, b),
{
    let ghost orig = stack@;
    let ghost target = if or_equal {
        pop_ge(stack_view(orig), ind as int)
    } else {
        pop_gt(stack_view(orig), ind as int)
    };
    while stack.len() > 0 && ((or_equal && stack[stack.len() - 1].0 >= ind) || (!or_equal
        && stack[stack.len() - 1].0 > ind))
        invariant
            stack@ == orig.take(stack@.len() as int),
            stack@.len() <= orig.len(),
            target == (if or_equal {
                pop_ge(stack_view(stack@), ind as int)
            } else {
                pop_gt(stack_view(stack@), ind as int)
            }),
        decreases stack@.len(),
    {
        let ghost before = stack@;
        stack.pop();
        assert(stack_view(before).drop_last() =~= stack_view(stack@));
        assert(stack@ =~= orig.take(stack@.len() as int));
    }
    assert forall|b: int| counts_below(orig, b) implies #[trigger] counts_below(stack@, b) by {
        assert forall|k: int| 0 <= k < stack@.len() implies (#[trigger] stack@[k]).1 <= b by {
            assert(stack@[k] == orig[k]);
        }
    }
}

/// The state of the renumbering, as plain values.
pub open spec fn state_of(stack: Seq<(usize, u64)>, found: bool, out: String) -> RenumState {
    RenumState { stack: stack_view(stack), found, out: sbytes(out) }
}

/// Every open run's count stays below `bound`.
pub open spec fn counts_below(stack: Seq<(usize, u64)>, bound: int) -> bool {
    forall|k: int| 0 <= k < stack.len() ==> (#[trigger] stack[k]).1 <= bound
}

/// One line of the block, processed: `line` starts at document offset
/// `at` and is the last of the block when `last` holds.
fn renumber_line(
    fences: &[Range<usize>],
    at: usize,
    line: &str,
    last: bool,
    stack: &mut Vec<(usize, u64)>,
    found: &mut bool,
    out: &mut String,
)
    requires
        counts_below(old(stack)@, 1_000_000_000 + at),
        at + 1_000_000_001 <= u64::MAX,
    ensures
        state_of(final(stack)@, *final(found), *final(out)) == renum_line(
            fences@,
            at as int,
            line.spec_bytes(),
            last,
            state_of(old(stack)@, *old(found), *old(out)),
        ),
        counts_below(final(stack)@, 1_000_000_000 + at + 1),
{
    let ghost lb = line.spec_bytes();
    let ghost st = state_of(stack@, *found, *out);
    if in_fence(fences, at) {
        push_str(out, line);
        if !last {
            push_str(out, ascii_str(10u8));
        }
        return ;
    }
    match list_item(line) {
        None => {
            let blank = all_whitespace(line);
            proof {
                encode_utf8_decode_utf8(line@);
            }
            if blank {
                stack.clear();
                assert(stack_view(stack@) =~= Seq::<(int, int)>::empty());
            } else {
                let lbytes = line.as_bytes();
                let ind = count_indent(lbytes, 0);
                pop_while(stack, ind, true);
            }
            push_str(out, line);
            if !last {
                push_str(out, ascii_str(10u8));
            }
        },
        Some(item) => {
            let lbytes = line.as_bytes();
            proof {
                lemma_indent_len(lb, 0);
            }
            let ghost rest = lb.subrange(item.indent as int, lb.len() as int);
            let digits = count_digits(lbytes, item.indent);
            proof {
                lemma_digit_run_shift(lb, item.indent as int, 0);
                lemma_digit_run(lb, item.indent as int);
            }
            if digits == 0 {
                push_str(out, line);
                if !last {
                    push_str(out, ascii_str(10u8));
                }
                return ;
            }
            *found = true;
            renumber_ordered(at, line, item.indent, digits, last, stack, out);
        },
    }
}

/// An ordered item line, renumbered (see `renum_ordered`).
fn renumber_ordered(
    at: usize,
    line: &str,
    ind: usize,
    digits: usize,
    last: bool,
    stack: &mut Vec<(usize, u64)>,
    out: &mut String,
)
    requires
        counts_below(old(stack)@, 1_000_000_000 + at),
        at + 1_000_000_001 <= u64::MAX,
        valid_utf8(line.spec_bytes()),
        1 <= digits <= 9,
        ind + digits < line.spec_bytes().len(),
        forall|k: int| ind <= k < ind + digits ==> is_digit(#[trigger] line.spec_bytes()[k]),
        forall|k: int| 0 <= k < ind ==> is_blank_byte(#[trigger] line.spec_bytes()[k]),
        digit_run(line.spec_bytes().subrange(ind as int, line.spec_bytes().len() as int), 0)
            == digits,
    ensures
        state_of(final(stack)@, true, *final(out)) == renum_ordered(
            line.spec_bytes(),
            ind as int,
            digits as int,
            last,
            state_of(old(stack)@, true, *old(out)),
        ),
        counts_below(final(stack)@, 1_000_000_000 + at + 1),
{
    let ghost lb = line.spec_bytes();
    let ghost rest = lb.subrange(ind as int, lb.len() as int);
    let lbytes = line.as_bytes();
    assert(lbytes@ =~= lb);
    pop_while(stack, ind, false);
    assert(counts_below(stack@, 1_000_000_000 + at));
    let sn = stack.len();
    let n: u64;
    if sn > 0 && stack[sn - 1].0 == ind {
        n = stack[sn - 1].1 + 1;
        let ghost before = stack@;
        stack.set(sn - 1, (ind, n));
        assert(stack_view(stack@) =~= stack_view(before).drop_last().push((ind as int, n as int)));
    } else {
        n = parse_digits(lbytes, ind, digits);
        assert(lb.subrange(ind as int, ind + digits) =~= rest.subrange(0, digits as int));
        proof {
            crate::text::lemma_pow10_mono(digits as nat, 9);
            assert(pow10(9) == 1_000_000_000) by {
                reveal_with_fuel(pow10, 10);
            }
        }
        let ghost before = stack@;
        stack.push((ind, n));
        assert(stack_view(stack@) =~= stack_view(before).push((ind as int, n as int)));
    }
    proof {
        assert(crate::text::boundary(line, ind as int)) by {
            if ind > 0 {
                lemma_ascii_boundary(lb, ind - 1);
            } else {
                lemma_ascii_boundary(lb, 0);
            }
        }
        assert(crate::text::boundary(line, (ind + digits) as int)) by {
            lemma_ascii_boundary(lb, ind + digits - 1);
        }
    }
    let head = substr(line, 0, ind);
    let n_len = lbytes.len();
    assert(n_len == lb.len());
    let tail = substr(line, ind + digits, n_len);
    push_str(out, head);
    push_decimal(out, n);
    push_str(out, tail);
    if !last {
        push_str(out, ascii_str(10u8));
    }
    assert(rest.subrange(digits as int, rest.len() as int) =~= lb.subrange(
        ind + digits,
        lb.len() as int,
    ));
}

/// The renumbered replacement for `block` alone. Each indent level
/// counts sequentially from the first number the author chose there;
/// bullets, lines inside the fenced code bodies `fences`, and lines
/// that are not list items are copied through. `None` means the block
/// holds no ordered item at all.
pub fn renumber_block_in(text: &str, block: Range<usize>, fences: &[Range<usize>]) -> (r: Option<String>)
    requires
        block_ok(text, block),
    ensures
        r is None <==> spec_renumber_block(text, block, fences@) is None,
        r matches Some(out) ==> spec_renumber_block(text, block, fences@) == Some(sbytes(out)),
{
    let ghost t = text.spec_bytes();
    let tb = text.as_bytes();
    let end = block.end;
    let ghost init = RenumState { stack: seq![], found: false, out: seq![] };
    let mut out = String::new();
    let mut stack: Vec<(usize, u64)> = Vec::new();
    let mut found = false;
    let mut p = block.start;
    assert(sbytes(out) =~= Seq::<u8>::empty());
    assert(stack_view(stack@) =~= Seq::<(int, int)>::empty());
    loop
        invariant_except_break
            block.start <= p <= end,
            crate::text::boundary(text, p as int),
            counts_below(stack@, 1_000_000_000 + p),
            renum_from(t, fences@, block.start as int, end as int, init) == renum_from(
                t,
                fences@,
                p as int,
                end as int,
                state_of(stack@, found, out),
            ),
        invariant
            tb@ == t,
            t == text.spec_bytes(),
            valid_utf8(t),
            block_ok(text, block),
            end == block.end,
        ensures
            renum_from(t, fences@, block.start as int, end as int, init) == state_of(
                stack@,
                found,
                out,
            ),
        decreases end - p,
    {
        let ghost st = state_of(stack@, found, out);
        proof {
            lemma_next_nl(t, p as int, end as int);
        }
        let mut nl = p;
        while nl < end && tb[nl] != 10u8
            invariant
                p <= nl <= end,
                end <= tb@.len(),
                next_nl(t, p as int, end as int) == next_nl(t, nl as int, end as int),
                tb@ == t,
            decreases end - nl,
        {
            nl += 1;
        }
        let last = nl >= end;
        if !last {
            proof {
                lemma_ascii_boundary(t, nl as int);
            }
        }
        let line = substr(text, p, nl);
        renumber_line(fences, p, line, last, &mut stack, &mut found, &mut out);
        if last {
            break ;
        }
        p = nl + 1;
    }
    if found {
        Some(out)
    } else {
        None
    }
}

/// The whole of `text` with `block` renumbered (see `renumber_block_in`);
/// `None` when the block holds no ordered item.
pub fn renumber_in(text: &str, block: Range<usize>, fences: &[Range<usize>]) -> (r: Option<String>)
    requires
        block_ok(text, block),
    ensures
        r is None <==> spec_renumber_block(text, block, fences@) is None,
        r matches Some(out) ==> sbytes(out) == text.spec_bytes().subrange(0, block.start as int)
            + spec_renumber_block(text, block, fences@)->0 + text.spec_bytes().subrange(
            block.end as int,
            text.spec_bytes().len() as int,
        ),
{
    let new_block = match renumber_block_in(text, block.start..block.end, fences) {
        None => {
            return None;
        },
        Some(b) => b,
    };
    let n = text.as_bytes().len();
    let mut out = String::new();
    push_str(&mut out, substr(text, 0, block.start));
    push_str(&mut out, new_block.as_str());
    push_str(&mut out, substr(text, block.end, n));
    assert(sbytes(out) =~= text.spec_bytes().subrange(0, block.start as int) + sbytes(new_block)
        + text.spec_bytes().subrange(block.end as int, text.spec_bytes().len() as int));
    Some(out)
}

/// The body of a fenced block: from the end of its opening line to the
/// start of its closing line, or just past the block when unclosed.
pub open spec fn fence_body(b: BlockInfo) -> Option<Range<usize>> {
    match b.kind {
        BlockKind::Fence { open_line, close_line } => Some(
            Range {
                start: open_line.end,
                end: match close_line {
                    Some(c) => c.start,
                    None => (b.range.end + 1) as usize,
                },
            },
        ),
        _ => None,
    }
}

/// The bodies of the fenced blocks among `blocks`, in order.
pub open spec fn fence_bodies_of(blocks: Seq<BlockInfo>) -> Seq<Range<usize>>
    decreases blocks.len(),
{
    if blocks.len() == 0 {
        Seq::empty()
    } else {
        let prev = fence_bodies_of(blocks.drop_last());
        match fence_body(blocks.last()) {
            Some(r) => prev.push(r),
            None => prev,
        }
    }
}

/// Byte ranges of the bodies of the fenced code blocks among `blocks`
/// (the document's blocks): the lines between the delimiters,
/// delimiters excluded. Numbers in there are the user's literal text,
/// not a list, so `renumber` leaves them alone.
pub fn fence_bodies_in(blocks: &[BlockInfo]) -> (r: Vec<Range<usize>>)
    requires
        forall|i: int| 0 <= i < blocks@.len() ==> (#[trigger] blocks@[i]).range.end < usize::MAX,
    ensures
        r@ == fence_bodies_of(blocks@),
{
    let mut out: Vec<Range<usize>> = Vec::new();
    let mut i: usize = 0;
    while i < blocks.len()
        invariant
            i <= blocks@.len(),
            forall|j: int| 0 <= j < blocks@.len() ==> (#[trigger] blocks@[j]).range.end < usize::MAX,
            out@ == fence_bodies_of(blocks@.take(i as int)),
        decreases blocks@.len() - i,
    {
        let b = &blocks[i];
        proof {
            assert(blocks@.take(i + 1).drop_last() =~= blocks@.take(i as int));
        }
        match &b.kind {
            BlockKind::Fence { open_line, close_line } => {
                let end = match close_line {
                    Some(c) => c.start,
                    None => b.range.end + 1,
                };
                out.push(open_line.end..end);
            },
            _ => {},
        }
        i += 1;
    }
    proof {
        assert(blocks@.take(blocks@.len() as int) =~= blocks@);
    }
    out
}

/// The body of a fenced block, from its view.
pub open spec fn fence_body_view(b: BlockView) -> Option<Range<usize>> {
    match b.kind {
        KindView::Fence { open_line, close_line } => Some(
            Range {
                start: open_line.end,
                end: match close_line {
                    Some(c) => c.start,
                    None => (b.range.end + 1) as usize,
                },
            },
        ),
        _ => None,
    }
}

pub open spec fn fence_bodies_of_views(blocks: Seq<BlockView>) -> Seq<Range<usize>>
    decreases blocks.len(),
{
    if blocks.len() == 0 {
        Seq::empty()
    } else {
        let prev = fence_bodies_of_views(blocks.drop_last());
        match fence_body_view(blocks.last()) {
            Some(r) => prev.push(r),
            None => prev,
        }
    }
}

/// The bodies of the fenced code blocks of `text`, as the Markdown
/// parser finds them.
pub open spec fn doc_fences(text: &str) -> Seq<Range<usize>> {
    fence_bodies_of_views(spec_blocks(text, md_events(text@)))
}

proof fn lemma_fence_bodies_views(bs: Seq<BlockInfo>)
    ensures
        fence_bodies_of(bs) == fence_bodies_of_views(blocks_view(bs)),
    decreases bs.len(),
{
    if bs.len() > 0 {
        lemma_fence_bodies_views(bs.drop_last());
        assert(blocks_view(bs.drop_last()) =~= blocks_view(bs).drop_last());
    }
}

/// Every block discovery finds ends before `usize::MAX`.
proof fn lemma_scan_ends(t: &str, evs: Seq<MdEventView>, k: int)
    ensures
        forall|i: int| 0 <= i < scan_upto(t, evs, k).out.len() ==> (#[trigger] scan_upto(t, evs, k).out[i]).range.end < usize::MAX,
    decreases k,
{
    if k > 0 {
        lemma_scan_ends(t, evs, k - 1);
    }
}

/// Byte ranges of the bodies of the fenced code blocks of `text`: the
/// lines between the delimiters, delimiters excluded. Numbers in there
/// are the user's literal text, not a list, so `renumber` leaves them
/// alone.
pub fn fence_bodies(text: &str) -> (r: Vec<Range<usize>>)
    ensures
        r@ == doc_fences(text),
{
    let bs = blocks(text);
    proof {
        let evs = md_events(text@);
        lemma_scan_ends(text, evs, evs.len() as int);
        assert forall|i: int| 0 <= i < bs@.len() implies (#[trigger] bs@[i]).range.end < usize::MAX by {
            assert(blocks_view(bs@)[i].range == bs@[i].range);
        }
        lemma_fence_bodies_views(bs@);
    }
    fence_bodies_in(bs.as_slice())
}

/// The renumbered replacement for `block` alone, with the fenced code
/// bodies of `text` left as they are (see `renumber_block_in`).
pub fn renumber_block(text: &str, block: Range<usize>) -> (r: Option<String>)
    requires
        block_ok(text, block),
    ensures
        r is None <==> spec_renumber_block(text, block, doc_fences(text)) is None,
        r matches Some(out) ==> spec_renumber_block(text, block, doc_fences(text)) == Some(sbytes(out)),
{
    let fences = fence_bodies(text);
    renumber_block_in(text, block, fences.as_slice())
}

/// Rewrites the ordered-list numbers within `block` of `text`, keeping
/// the first number the author chose at each indent level and leaving
/// the fenced code bodies of `text` alone; the whole of `text`, unchanged
/// outside `block`. `None` when the block holds no ordered item.
pub fn renumber(text: &str, block: Range<usize>) -> (r: Option<String>)
    requires
        block_ok(text, block),
    ensures
        r is None <==> spec_renumber_block(text, block, doc_fences(text)) is None,
        r matches Some(out) ==> sbytes(out) == text.spec_bytes().subrange(0, block.start as int)
            + spec_renumber_block(text, block, doc_fences(text))->0 + text.spec_bytes().subrange(
            block.end as int,
            text.spec_bytes().len() as int,
        ),
{
    let fences = fence_bodies(text);
    renumber_in(text, block, fences.as_slice())
}

/// A line of nothing but spaces and tabs (or of nothing at all).
pub open spec fn spaces_only(lb: Seq<u8>) -> bool {
    forall|k: int| 0 <= k < lb.len() ==> is_blank_byte(#[trigger] lb[k])
}

/// A line of spaces and tabs is no list item, and it is blank.
proof fn lemma_spaces_line(lb: Seq<u8>)
    requires
        spaces_only(lb),
    ensures
        spec_list_item(lb) is None,
        blank_line(lb),
{
    lemma_indent_len(lb, 0);
    assert(indent_len(lb, 0) == lb.len()) by {
        if indent_len(lb, 0) < lb.len() {
            assert(is_blank_byte(lb[indent_len(lb, 0)]));
        }
    }
    let r = lb.subrange(indent_len(lb, 0), lb.len() as int);
    assert(r.len() == 0);
    assert(digit_run(r, 0) == 0);
    let cs = Seq::new(lb.len(), |i: int| lb[i] as char);
    assert(is_ascii_chars(cs));
    is_ascii_chars_encode_utf8(cs);
    assert(encode_utf8(cs) =~= lb);
    encode_utf8_decode_utf8(cs);
    assert forall|k: int| 0 <= k < decode_utf8(lb).len() implies is_ws(#[trigger] decode_utf8(lb)[k]) by {
        assert(decode_utf8(lb)[k] == cs[k]);
        assert(is_blank_byte(lb[k]));
    }
}

/// One line's processing appends to the output what depends on the open
/// runs and the line alone.
proof fn lemma_renum_line_out(fences: Seq<Range<usize>>, at: int, lb: Seq<u8>, last: bool, st: RenumState)
    ensures
        ({
            let bare = RenumState { stack: st.stack, found: false, out: seq![] };
            let a = renum_line(fences, at, lb, last, st);
            let b = renum_line(fences, at, lb, last, bare);
            &&& a.stack == b.stack
            &&& a.out == st.out + b.out
        }),
{
    let bare = RenumState { stack: st.stack, found: false, out: seq![] };
    let a = renum_line(fences, at, lb, last, st);
    let b = renum_line(fences, at, lb, last, bare);
    assert(a.out =~= st.out + b.out);
}

/// Renumbering from byte `p` on appends to the output what depends on
/// the open runs and the text alone.
proof fn lemma_renum_from_out(t: Seq<u8>, fences: Seq<Range<usize>>, p: int, end: int, st: RenumState)
    ensures
        renum_from(t, fences, p, end, st).out == st.out + renum_from(
            t,
            fences,
            p,
            end,
            RenumState { stack: st.stack, found: false, out: seq![] },
        ).out,
    decreases end - p,
{
    let bare = RenumState { stack: st.stack, found: false, out: seq![] };
    if p < 0 || p > end || end > t.len() {
        assert(st.out + bare.out =~= st.out);
    } else {
        let nl = next_nl(t, p, end);
        lemma_next_nl(t, p, end);
        let lb = t.subrange(p, nl);
        let a = renum_line(fences, p, lb, nl >= end, st);
        let b = renum_line(fences, p, lb, nl >= end, bare);
        lemma_renum_line_out(fences, p, lb, nl >= end, st);
        if nl < end {
            lemma_renum_from_out(t, fences, nl + 1, end, a);
            lemma_renum_from_out(t, fences, nl + 1, end, b);
            let c = RenumState { stack: a.stack, found: false, out: seq![] };
            assert(RenumState { stack: b.stack, found: false, out: seq![] } == c);
            assert(renum_from(t, fences, p, end, st).out == a.out + renum_from(t, fences, nl + 1, end, c).out);
            assert(renum_from(t, fences, p, end, bare).out == b.out + renum_from(t, fences, nl + 1, end, c).out);
        }
    }
}

/// A blank line ends every open run: from a line of spaces and tabs
/// (outside any fence) on, the rest of the block is renumbered exactly
/// as a block of its own, whatever runs were open before it, so the
/// next ordered item starts again at the number its author wrote.
pub proof fn lemma_blank_line_restarts(t: Seq<u8>, fences: Seq<Range<usize>>, p: int, end: int, st: RenumState)
    requires
        0 <= p,
        next_nl(t, p, end) < end <= t.len(),
        spaces_only(t.subrange(p, next_nl(t, p, end))),
        !in_fences(fences, p),
    ensures
        ({
            let nl = next_nl(t, p, end);
            renum_from(t, fences, p, end, st).out == st.out + t.subrange(p, nl) + seq![10u8] + renum_from(
                t,
                fences,
                nl + 1,
                end,
                RenumState { stack: seq![], found: false, out: seq![] },
            ).out
        }),
{
    let nl = next_nl(t, p, end);
    lemma_next_nl(t, p, end);
    let lb = t.subrange(p, nl);
    lemma_spaces_line(lb);
    let after = RenumState { stack: seq![], found: st.found, out: st.out + lb + seq![10u8] };
    assert(renum_line(fences, p, lb, false, st) == after);
    assert(renum_from(t, fences, p, end, st) == renum_from(t, fences, nl + 1, end, after));
    lemma_renum_from_out(t, fences, nl + 1, end, after);
}

} // verus!
