//! Clipboard-image paste: naming and link building. The shell owns the
//! file I/O; everything here is pure.
use vstd::prelude::*;
use vstd::utf8::*;
use vstd::string::*;
use vstd::relations::injective_on;
use vstd::set_lib::{lemma_int_range, lemma_len_subset, lemma_map_size, set_int_range};
use crate::text::{decimal, dec_value, lemma_encode_injective, push_decimal, push_str, sbytes, str_eq};

verus! {

/// The formats a clipboard image comes in.
#[derive(Clone, Copy, Debug, PartialEq, Eq, Structural)]
pub enum ImageFormat {
    Png,
    Jpeg,
    Webp,
    Gif,
    Svg,
    Bmp,
    Tiff,
}

/// The file extension a pasted image of `format` is saved under.
pub open spec fn spec_extension(format: ImageFormat) -> Seq<char> {
    match format {
        ImageFormat::Png => "png"@,
        ImageFormat::Jpeg => "jpg"@,
        ImageFormat::Webp => "webp"@,
        ImageFormat::Gif => "gif"@,
        ImageFormat::Svg => "svg"@,
        ImageFormat::Bmp => "bmp"@,
        ImageFormat::Tiff => "tiff"@,
    }
}

/// File extension for a clipboard image format.
pub fn extension(format: ImageFormat) -> (r: &'static str)
    ensures
        r@ == spec_extension(format),
{
    match format {
        ImageFormat::Png => "png",
        ImageFormat::Jpeg => "jpg",
        ImageFormat::Webp => "webp",
        ImageFormat::Gif => "gif",
        ImageFormat::Svg => "svg",
        ImageFormat::Bmp => "bmp",
        ImageFormat::Tiff => "tiff",
    }
}

/// The bytes of the `n`-th name tried for a pasted image:
/// `pasted-<stamp>.<ext>` first, then `pasted-<stamp>-<n>.<ext>` from 2 on.
pub open spec fn candidate(stamp: Seq<u8>, ext: Seq<u8>, n: int) -> Seq<u8> {
    if n <= 1 {
        encode_utf8("pasted-"@) + stamp + encode_utf8("."@) + ext
    } else {
        encode_utf8("pasted-"@) + stamp + encode_utf8("-"@) + decimal(n as nat) + encode_utf8(
            "."@,
        ) + ext
    }
}

/// Some name in `taken` has the bytes `x`.
pub open spec fn in_taken(taken: Seq<String>, x: Seq<u8>) -> bool {
    exists|i: int| 0 <= i < taken.len() && sbytes(taken[i]) == x
}

proof fn lemma_dec_value(n: nat)
    ensures
        dec_value(decimal(n)) == n,
        decimal(n).len() >= 1,
    decreases n,
{
    if n >= 10 {
        lemma_dec_value(n / 10);
        let d = decimal(n);
        assert(d.drop_last() =~= decimal(n / 10));
        assert(d.last() == (48 + n % 10) as u8);
        assert(((48 + n % 10) as u8) as int == 48 + n % 10);
        assert(dec_value(d) == dec_value(d.drop_last()) * 10 + (d.last() - 48) as nat);
        assert(n == (n / 10) * 10 + n % 10);
    } else {
        let d = decimal(n);
        assert(d.drop_last() =~= Seq::<u8>::empty());
        assert(((48 + n) as u8) as int == 48 + n);
        assert(dec_value(d) == dec_value(d.drop_last()) * 10 + (d.last() - 48) as nat);
    }
}

/// Different tries give different names.
proof fn lemma_candidate_injective(stamp: Seq<u8>, ext: Seq<u8>, a: int, b: int)
    requires
        1 <= a,
        1 <= b,
        candidate(stamp, ext, a) == candidate(stamp, ext, b),
    ensures
        a == b,
{
    let head = encode_utf8("pasted-"@) + stamp;
    let dash = encode_utf8("-"@);
    let dot = encode_utf8("."@) + ext;
    lemma_dec_value(a as nat);
    lemma_dec_value(b as nat);
    if a > 1 && b > 1 {
        let x = candidate(stamp, ext, a);
        let y = candidate(stamp, ext, b);
        let da = decimal(a as nat);
        let db = decimal(b as nat);
        assert(x =~= head + dash + da + dot);
        assert(y =~= head + dash + db + dot);
        assert(da.len() == db.len());
        let k = (head.len() + dash.len()) as int;
        assert(da =~= x.subrange(k, k + da.len() as int));
        assert(db =~= y.subrange(k, k + db.len() as int));
    } else if a > 1 {
        let x = candidate(stamp, ext, a);
        assert(x =~= head + dash + decimal(a as nat) + dot);
        assert(candidate(stamp, ext, b) =~= head + dot);
    } else if b > 1 {
        let y = candidate(stamp, ext, b);
        assert(y =~= head + dash + decimal(b as nat) + dot);
        assert(candidate(stamp, ext, a) =~= head + dot);
    }
}

/// More names than `taken` holds cannot all be taken.
proof fn lemma_not_all_taken(taken: Seq<String>, stamp: Seq<u8>, ext: Seq<u8>, n: int)
    requires
        1 <= n,
        forall|m: int| 1 <= m < n ==> in_taken(taken, #[trigger] candidate(stamp, ext, m)),
    ensures
        n - 1 <= taken.len(),
{
    let x = set_int_range(1, n);
    let f = |m: int| candidate(stamp, ext, m);
    let y = x.map(f);
    let names = taken.map_values(|s: String| sbytes(s));
    lemma_int_range(1, n);
    assert(injective_on(f, x)) by {
        assert forall|a: int, b: int| x.contains(a) && x.contains(b) && #[trigger] f(a) == #[trigger] f(
            b,
        ) implies a == b by {
            lemma_candidate_injective(stamp, ext, a, b);
        }
    }
    lemma_map_size(x, y, f);
    assert(y.subset_of(names.to_set())) by {
        assert forall|v: Seq<u8>| y.contains(v) implies names.to_set().contains(v) by {
            let m = choose|m: int| x.contains(m) && f(m) == v;
            assert(in_taken(taken, candidate(stamp, ext, m)));
            let i = choose|i: int| 0 <= i < taken.len() && sbytes(taken[i]) == candidate(stamp, ext, m);
            assert(names[i] == v);
        }
    }
    names.lemma_cardinality_of_set();
    vstd::seq_lib::seq_to_set_is_finite(names);
    lemma_len_subset(y, names.to_set());
}

/// The `n`-th name tried.
fn candidate_name(stamp: &str, ext: &str, n: u64) -> (r: String)
    requires
        n >= 1,
    ensures
        sbytes(r) == candidate(stamp.spec_bytes(), ext.spec_bytes(), n as int),
{
    let mut out = String::new();
    proof {
        assert(sbytes(out) =~= Seq::<u8>::empty()) by {
            assert(out@ =~= Seq::<char>::empty());
        }
    }
    push_str(&mut out, "pasted-");
    push_str(&mut out, stamp);
    if n > 1 {
        push_str(&mut out, "-");
        push_decimal(&mut out, n);
    }
    push_str(&mut out, ".");
    push_str(&mut out, ext);
    out
}

/// Whether `name` is one of `taken`.
fn is_taken(taken: &[String], name: &String) -> (r: bool)
    ensures
        r == in_taken(taken@, sbytes(*name)),
{
    let mut i: usize = 0;
    while i < taken.len()
        invariant
            i <= taken@.len(),
            forall|j: int| 0 <= j < i ==> sbytes(#[trigger] taken@[j]) != sbytes(*name),
        decreases taken@.len() - i,
    {
        if str_eq(taken[i].as_str(), name.as_str()) {
            return true;
        }
        proof {
            if sbytes(taken@[i as int]) == sbytes(*name) {
                lemma_encode_injective(taken@[i as int]@, name@);
            }
        }
        i += 1;
    }
    false
}

/// `pasted-<stamp>.<ext>`, suffixed `-2`, `-3`, ... while the name is
/// one of `taken`.
pub fn pick_name(taken: &[String], stamp: &str, ext: &str) -> (r: String)
    requires
        taken@.len() < usize::MAX,
    ensures
        exists|n: int|
            1 <= n <= taken@.len() + 1 && sbytes(r) == candidate(
                stamp.spec_bytes(),
                ext.spec_bytes(),
                n,
            ) && !in_taken(taken@, candidate(stamp.spec_bytes(), ext.spec_bytes(), n)) && forall|
                m: int,
            |
                1 <= m < n ==> in_taken(
                    taken@,
                    #[trigger] candidate(stamp.spec_bytes(), ext.spec_bytes(), m),
                ),
{
    let ghost s = stamp.spec_bytes();
    let ghost e = ext.spec_bytes();
    let base = candidate_name(stamp, ext, 1);
    if !is_taken(taken, &base) {
        assert(1 <= 1 <= taken@.len() + 1 && sbytes(base) == candidate(s, e, 1) && !in_taken(
            taken@,
            candidate(s, e, 1),
        ) && forall|m: int| 1 <= m < 1 ==> in_taken(taken@, #[trigger] candidate(s, e, m)));
        return base;
    }
    let mut n: usize = 2;
    while n - 1 <= taken.len()
        invariant
            2 <= n <= taken@.len() + 2,
            taken@.len() < usize::MAX,
            s == stamp.spec_bytes(),
            e == ext.spec_bytes(),
            forall|m: int| 1 <= m < n ==> in_taken(taken@, #[trigger] candidate(s, e, m)),
        decreases taken@.len() + 2 - n,
    {
        let name = candidate_name(stamp, ext, n as u64);
        if !is_taken(taken, &name) {
            let ghost k = n as int;
            assert(1 <= k <= taken@.len() + 1);
            assert((n as u64) as int == k);
            assert(sbytes(name) == candidate(s, e, k));
            assert(!in_taken(taken@, candidate(s, e, k)));
            assert(1 <= k <= taken@.len() + 1 && sbytes(name) == candidate(s, e, k) && !in_taken(
                taken@,
                candidate(s, e, k),
            ) && forall|m: int| 1 <= m < k ==> in_taken(taken@, #[trigger] candidate(s, e, m)));
            return name;
        }
        proof {
            lemma_not_all_taken(taken@, s, e, n + 1);
        }
        n += 1;
    }
    proof {
        lemma_not_all_taken(taken@, s, e, n as int);
    }
    candidate_name(stamp, ext, n as u64)
}

/// The markdown image link for an asset file name.
pub fn markdown_link(name: &str) -> (r: String)
    ensures
        r@ == "![](assets/"@ + name@ + ")"@,
{
    let mut out = String::new();
    push_str(&mut out, "![](assets/");
    push_str(&mut out, name);
    push_str(&mut out, ")");
    out
}

} // verus!
