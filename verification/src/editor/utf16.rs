//! Offsets between the document's UTF-8 bytes and the UTF-16 code units
//! that platform input methods count in.
use vstd::prelude::*;
use vstd::utf8::*;
use vstd::string::*;
use crate::text::{char_len, chars_of, lemma_encode_push, lemma_encode_split};

verus! {

/// The UTF-8 bytes `c` takes.
pub open spec fn u8len(c: char) -> int {
    encode_scalar(c as u32).len() as int
}

/// The UTF-16 code units `c` takes: two for a character beyond the
/// basic multilingual plane, one otherwise.
pub open spec fn u16len(c: char) -> int {
    if c as u32 >= 0x10000 {
        2
    } else {
        1
    }
}

/// The UTF-16 offset of byte offset `off` in the characters `cs`:
/// characters are counted while the bytes before them fall short of
/// `off`, so an offset inside a character counts that whole character.
pub open spec fn to_utf16(cs: Seq<char>, off: int) -> int
    decreases cs.len(),
{
    if cs.len() == 0 || off <= 0 {
        0
    } else {
        u16len(cs[0]) + to_utf16(cs.drop_first(), off - u8len(cs[0]))
    }
}

/// The byte offset of UTF-16 offset `off` in the characters `cs`, with
/// the same rounding as `to_utf16`.
pub open spec fn from_utf16(cs: Seq<char>, off: int) -> int
    decreases cs.len(),
{
    if cs.len() == 0 || off <= 0 {
        0
    } else {
        u8len(cs[0]) + from_utf16(cs.drop_first(), off - u16len(cs[0]))
    }
}

/// The UTF-8 bytes of the first `k` characters.
pub open spec fn prefix8(cs: Seq<char>, k: int) -> int
    decreases cs.len(),
{
    if cs.len() == 0 || k <= 0 {
        0
    } else {
        u8len(cs[0]) + prefix8(cs.drop_first(), k - 1)
    }
}

/// The UTF-16 code units of the first `k` characters.
pub open spec fn prefix16(cs: Seq<char>, k: int) -> int
    decreases cs.len(),
{
    if cs.len() == 0 || k <= 0 {
        0
    } else {
        u16len(cs[0]) + prefix16(cs.drop_first(), k - 1)
    }
}

proof fn lemma_char_lens(c: char)
    ensures
        1 <= u8len(c) <= 4,
        1 <= u16len(c) <= u8len(c),
{
}

proof fn lemma_offsets_nonneg(cs: Seq<char>, off: int)
    ensures
        to_utf16(cs, off) >= 0,
        from_utf16(cs, off) >= 0,
    decreases cs.len(),
{
    if cs.len() > 0 && off > 0 {
        lemma_char_lens(cs[0]);
        lemma_offsets_nonneg(cs.drop_first(), off - u8len(cs[0]));
        lemma_offsets_nonneg(cs.drop_first(), off - u16len(cs[0]));
    }
}

/// The bytes of the first `k` characters are the length of their
/// encoding: `prefix8` marks the character boundaries.
pub proof fn lemma_prefix8_is_boundary(cs: Seq<char>, k: int)
    requires
        0 <= k <= cs.len(),
    ensures
        prefix8(cs, k) == encode_utf8(cs.take(k)).len(),
        is_char_boundary(encode_utf8(cs), prefix8(cs, k)),
    decreases cs.len(),
{
    lemma_encode_split(cs, k);
    if k > 0 {
        let rest = cs.drop_first();
        lemma_prefix8_is_boundary(rest, k - 1);
        assert(cs.take(k) =~= seq![cs[0]] + rest.take(k - 1));
        crate::text::lemma_encode_cons(cs[0], rest.take(k - 1));
    } else {
        assert(cs.take(0) =~= Seq::<char>::empty());
        assert(encode_utf8(Seq::<char>::empty()) =~= Seq::<u8>::empty());
    }
}

/// From a character boundary to UTF-16 and back gives the boundary.
pub proof fn lemma_bytes_round_trip(cs: Seq<char>, k: int)
    requires
        0 <= k <= cs.len(),
    ensures
        from_utf16(cs, to_utf16(cs, prefix8(cs, k))) == prefix8(cs, k),
        to_utf16(cs, prefix8(cs, k)) == prefix16(cs, k),
    decreases cs.len(),
{
    if k > 0 {
        let rest = cs.drop_first();
        lemma_char_lens(cs[0]);
        lemma_bytes_round_trip(rest, k - 1);
        lemma_offsets_nonneg(rest, prefix8(rest, k - 1));
    }
}

/// From a UTF-16 character boundary to bytes and back gives the boundary.
pub proof fn lemma_utf16_round_trip(cs: Seq<char>, k: int)
    requires
        0 <= k <= cs.len(),
    ensures
        to_utf16(cs, from_utf16(cs, prefix16(cs, k))) == prefix16(cs, k),
        from_utf16(cs, prefix16(cs, k)) == prefix8(cs, k),
    decreases cs.len(),
{
    if k > 0 {
        let rest = cs.drop_first();
        lemma_char_lens(cs[0]);
        lemma_utf16_round_trip(rest, k - 1);
        lemma_offsets_nonneg(rest, prefix16(rest, k - 1));
    }
}

/// UTF-16 code units `c` takes.
fn utf16_units(c: char) -> (r: usize)
    ensures
        r == u16len(c),
{
    if c as u32 >= 0x10000 {
        2
    } else {
        1
    }
}

/// The UTF-16 offset of byte offset `offset` in `text`.
pub fn offset_to_utf16(text: &str, offset: usize) -> (r: usize)
    ensures
        r == to_utf16(text@, offset as int),
{
    let total = text.as_bytes().len();
    let v = chars_of(text);
    let ghost cs = v@;
    let mut i: usize = 0;
    let mut bytes: usize = 0;
    let mut units: usize = 0;
    assert(cs.skip(0) =~= cs);
    assert(cs.take(0) =~= Seq::<char>::empty());
    assert(encode_utf8(Seq::<char>::empty()) =~= Seq::<u8>::empty());
    while i < v.len() && bytes < offset
        invariant
            cs == v@,
            cs == text@,
            total == text.spec_bytes().len(),
            i <= cs.len(),
            bytes == encode_utf8(cs.take(i as int)).len(),
            bytes <= total,
            units <= bytes,
            to_utf16(cs, offset as int) == units + to_utf16(cs.skip(i as int), offset - bytes),
        decreases cs.len() - i,
    {
        let c = v[i];
        proof {
            lemma_char_lens(c);
            lemma_encode_split(cs, i + 1);
            assert(cs.take(i + 1) =~= cs.take(i as int).push(c));
            lemma_encode_push(cs.take(i as int), c);
            assert(cs.skip(i as int).drop_first() =~= cs.skip(i + 1));
            assert(encode_utf8(cs).len() == text.spec_bytes().len());
        }
        bytes = bytes + char_len(c);
        units = units + utf16_units(c);
        i = i + 1;
    }
    proof {
        if i == cs.len() {
            assert(cs.skip(i as int).len() == 0);
        }
    }
    units
}

/// The byte offset of UTF-16 offset `offset` in `text`.
pub fn offset_from_utf16(text: &str, offset: usize) -> (r: usize)
    ensures
        r == from_utf16(text@, offset as int),
        r <= text.spec_bytes().len(),
{
    let total = text.as_bytes().len();
    let v = chars_of(text);
    let ghost cs = v@;
    let mut i: usize = 0;
    let mut bytes: usize = 0;
    let mut units: usize = 0;
    assert(cs.skip(0) =~= cs);
    assert(cs.take(0) =~= Seq::<char>::empty());
    assert(encode_utf8(Seq::<char>::empty()) =~= Seq::<u8>::empty());
    while i < v.len() && units < offset
        invariant
            cs == v@,
            cs == text@,
            total == text.spec_bytes().len(),
            i <= cs.len(),
            bytes == encode_utf8(cs.take(i as int)).len(),
            bytes <= text.spec_bytes().len(),
            units <= bytes,
            from_utf16(cs, offset as int) == bytes + from_utf16(cs.skip(i as int), offset - units),
        decreases cs.len() - i,
    {
        let c = v[i];
        proof {
            lemma_char_lens(c);
            lemma_encode_split(cs, i + 1);
            assert(cs.take(i + 1) =~= cs.take(i as int).push(c));
            lemma_encode_push(cs.take(i as int), c);
            assert(cs.skip(i as int).drop_first() =~= cs.skip(i + 1));
            assert(encode_utf8(cs).len() == text.spec_bytes().len());
        }
        bytes = bytes + char_len(c);
        units = units + utf16_units(c);
        i = i + 1;
    }
    proof {
        if i == cs.len() {
            assert(cs.skip(i as int).len() == 0);
        }
    }
    bytes
}

} // verus!
