//! Find-in-file matching. ASCII case folding only; smart case: a query
//! containing an uppercase character matches exactly.
use vstd::prelude::*;
use vstd::utf8::*;
use vstd::string::*;
use core::ops::Range;
use crate::text::is_boundary;

verus! {

broadcast use vstd::utf8::encode_utf8_valid_utf8, vstd::utf8::is_char_boundary_start_end_of_seq;

/// `char::is_uppercase`: whether the character has the Unicode
/// `Uppercase` property.
pub uninterp spec fn spec_is_uppercase(c: char) -> bool;

/// `char::is_uppercase`. Its result is named (`spec_is_uppercase`); the
/// contract adds only what std's own source spells out for ASCII: the
/// letters `A`-`Z` are uppercase and no other ASCII character is.
#[verifier::external_body]
fn char_is_uppercase(c: char) -> (r: bool)
    ensures
        r == spec_is_uppercase(c),
        ('A' <= c <= 'Z') ==> r,
        (c <= '\x7f' && !('A' <= c <= 'Z')) ==> !r,
{
    c.is_uppercase()
}

/// ASCII lowercase of one byte.
pub open spec fn ascii_lower(x: u8) -> u8 {
    if 65 <= x <= 90 {
        (x + 32) as u8
    } else {
        x
    }
}

/// Whether `q` occurs in `t` at byte `i`: exactly, or ignoring ASCII
/// case.
pub open spec fn hit_at(t: Seq<u8>, q: Seq<u8>, i: int, exact: bool) -> bool {
    0 <= i && i + q.len() <= t.len() && if exact {
        forall|k: int| 0 <= k < q.len() ==> t[i + k] == #[trigger] q[k]
    } else {
        forall|k: int| 0 <= k < q.len() ==> ascii_lower(t[i + k]) == ascii_lower(#[trigger] q[k])
    }
}

pub open spec fn rng(a: int, b: int) -> Range<usize> {
    Range { start: a as usize, end: b as usize }
}

/// The matches found scanning left to right from byte `i`: a window on
/// character boundaries that matches is taken and the scan resumes
/// after it; otherwise the scan moves one byte.
pub open spec fn scan_matches(t: Seq<u8>, q: Seq<u8>, exact: bool, i: int) -> Seq<Range<usize>>
    decreases t.len() - i,
{
    if q.len() == 0 || i < 0 || i + q.len() > t.len() {
        seq![]
    } else if is_char_boundary(t, i) && is_char_boundary(t, i + q.len()) && hit_at(
        t,
        q,
        i,
        exact,
    ) {
        seq![rng(i, i + q.len())] + scan_matches(t, q, exact, i + q.len())
    } else {
        scan_matches(t, q, exact, i + 1)
    }
}

/// Smart case: the query matches exactly when one of its characters is
/// uppercase.
pub open spec fn exact_case(query: &str) -> bool {
    exists|k: int| 0 <= k < query@.len() && spec_is_uppercase(#[trigger] query@[k])
}

/// The non-overlapping matches of `query` in `text`, in order.
pub open spec fn spec_find_matches(text: &str, query: &str) -> Seq<Range<usize>> {
    let t = text.spec_bytes();
    let q = query.spec_bytes();
    if q.len() == 0 || q.len() > t.len() {
        seq![]
    } else {
        scan_matches(t, q, exact_case(query), 0)
    }
}

/// Every range is a match of `q` in `t` on character boundaries, the
/// ranges ascend without overlapping, and all lie at or after `lo`.
pub open spec fn matches_ok(t: Seq<u8>, q: Seq<u8>, exact: bool, ms: Seq<Range<usize>>, lo: int) -> bool {
    &&& forall|k: int|
        0 <= k < ms.len() ==> {
            &&& lo <= (#[trigger] ms[k]).start
            &&& ms[k].end == ms[k].start + q.len()
            &&& ms[k].end <= t.len()
            &&& is_char_boundary(t, ms[k].start as int)
            &&& is_char_boundary(t, ms[k].end as int)
            &&& hit_at(t, q, ms[k].start as int, exact)
        }
    &&& forall|a: int, b: int| 0 <= a < b < ms.len() ==> (#[trigger] ms[a]).end <= (#[trigger] ms[b]).start
}

pub proof fn lemma_scan_ok(t: Seq<u8>, q: Seq<u8>, exact: bool, i: int)
    requires
        0 <= i,
        t.len() <= usize::MAX,
    ensures
        matches_ok(t, q, exact, scan_matches(t, q, exact, i), i),
    decreases t.len() - i,
{
    if q.len() == 0 || i + q.len() > t.len() {
    } else if is_char_boundary(t, i) && is_char_boundary(t, i + q.len()) && hit_at(t, q, i, exact) {
        lemma_scan_ok(t, q, exact, i + q.len());
        let rest = scan_matches(t, q, exact, i + q.len());
        let all = seq![rng(i, i + q.len())] + rest;
        assert forall|a: int, b: int| 0 <= a < b < all.len() implies (#[trigger] all[a]).end <= (
        #[trigger] all[b]).start by {
            assert(all[b] == rest[b - 1]);
            if a > 0 {
                assert(all[a] == rest[a - 1]);
            }
        }
        assert forall|k: int| 0 <= k < all.len() implies i <= (#[trigger] all[k]).start by {
            if k > 0 {
                assert(all[k] == rest[k - 1]);
            }
        }
        assert forall|k: int| 0 < k < all.len() implies (#[trigger] all[k]) == rest[k - 1] by {}
        assert(matches_ok(t, q, exact, all, i));
    } else {
        lemma_scan_ok(t, q, exact, i + 1);
    }
}

fn window_hits(t: &[u8], q: &[u8], i: usize, exact: bool) -> (r: bool)
    requires
        i + q@.len() <= t@.len(),
    ensures
        r == hit_at(t@, q@, i as int, exact),
{
    let mut k: usize = 0;
    let tn = t.len();
    while k < q.len()
        invariant
            k <= q@.len(),
            tn == t@.len(),
            i + q@.len() <= t@.len(),
            forall|m: int|
                0 <= m < k ==> if exact {
                    t@[i + m] == #[trigger] q@[m]
                } else {
                    ascii_lower(t@[i + m]) == ascii_lower(#[trigger] q@[m])
                },
        decreases q@.len() - k,
    {
        let a = t[i + k];
        let b = q[k];
        let same = if exact {
            a == b
        } else {
            let la = if 65u8 <= a && a <= 90u8 {
                a + 32
            } else {
                a
            };
            let lb = if 65u8 <= b && b <= 90u8 {
                b + 32
            } else {
                b
            };
            la == lb
        };
        if !same {
            return false;
        }
        k += 1;
    }
    true
}

fn has_uppercase(query: &str) -> (r: bool)
    ensures
        r == exact_case(query),
{
    let n = query.unicode_len();
    let mut i: usize = 0;
    while i < n
        invariant
            i <= n,
            n == query@.len(),
            forall|k: int| 0 <= k < i ==> !spec_is_uppercase(#[trigger] query@[k]),
        decreases n - i,
    {
        if char_is_uppercase(query.get_char(i)) {
            return true;
        }
        i += 1;
    }
    false
}

/// Non-overlapping match ranges of `query` in `text`, sorted.
pub fn find_matches(text: &str, query: &str) -> (r: Vec<Range<usize>>)
    ensures
        r@ == spec_find_matches(text, query),
        matches_ok(text.spec_bytes(), query.spec_bytes(), exact_case(query), r@, 0),
{
    let ghost t = text.spec_bytes();
    let ghost q = query.spec_bytes();
    let tb = text.as_bytes();
    let qb = query.as_bytes();
    let qlen = qb.len();
    let tlen = tb.len();
    proof {
        lemma_scan_ok(t, q, exact_case(query), 0);
    }
    if qlen == 0 || qlen > tlen {
        assert(spec_find_matches(text, query) =~= seq![]);
        return Vec::new();
    }
    let exact = has_uppercase(query);
    assert(valid_utf8(t));
    let mut out: Vec<Range<usize>> = Vec::new();
    let mut i: usize = 0;
    while i <= tb.len() - qlen
        invariant
            tb@ == t,
            valid_utf8(t),
            qb@ == q,
            qlen == q.len(),
            1 <= qlen <= t.len(),
            exact == exact_case(query),
            i <= t.len(),
            out@ + scan_matches(t, q, exact, i as int) == scan_matches(t, q, exact, 0),
        decreases t.len() - i,
    {
        let end = i + qlen;
        if is_boundary(tb, i) && is_boundary(tb, end) && window_hits(tb, qb, i, exact) {
            let ghost before = out@;
            assert(scan_matches(t, q, exact, i as int) == seq![rng(i as int, end as int)]
                + scan_matches(t, q, exact, end as int));
            out.push(i..end);
            assert(out@ =~= before + seq![rng(i as int, end as int)]);
            assert(out@ + scan_matches(t, q, exact, end as int) =~= before + scan_matches(
                t,
                q,
                exact,
                i as int,
            ));
            i = end;
        } else {
            assert(scan_matches(t, q, exact, i as int) == scan_matches(t, q, exact, i + 1));
            i += 1;
        }
    }
    assert(scan_matches(t, q, exact, i as int) =~= seq![]);
    assert(out@ + scan_matches(t, q, exact, i as int) =~= out@);
    out
}

/// Smart case, exactly: when any character of the query is uppercase,
/// whichever it is, every match found spells the query byte for byte.
pub proof fn lemma_uppercase_query_matches_exactly(text: &str, query: &str, k: int)
    requires
        0 <= k < query@.len(),
        spec_is_uppercase(query@[k]),
        text.spec_bytes().len() <= usize::MAX,
    ensures
        forall|i: int| 0 <= i < spec_find_matches(text, query).len() ==> text.spec_bytes().subrange(
            (#[trigger] spec_find_matches(text, query)[i]).start as int,
            spec_find_matches(text, query)[i].end as int,
        ) == query.spec_bytes(),
{
    let t = text.spec_bytes();
    let q = query.spec_bytes();
    assert(exact_case(query));
    lemma_scan_ok(t, q, true, 0);
    let ms = spec_find_matches(text, query);
    assert forall|i: int| 0 <= i < ms.len() implies t.subrange((#[trigger] ms[i]).start as int, ms[i].end as int) == q by {
        assert(hit_at(t, q, ms[i].start as int, true));
        assert(t.subrange(ms[i].start as int, ms[i].end as int) =~= q);
    }
}

} // verus!
