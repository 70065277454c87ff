//! The first-party plugin catalog: a JSON file in the repo listing
//! every installable plugin with an org-pinned download URL and a
//! sha256. Fetched only when the user opens "Install Plugins…", never
//! in the background. This module holds the rules: which URLs may be
//! fetched, which install links are ours, which entry a name picks, and
//! whether a download is the one the catalog pinned.
use vstd::prelude::*;
use vstd::string::*;
use sha2::Digest;
use crate::bookmarks::hex_bytes;
use crate::text::{ws_lead, ws_trail, trimmed, lemma_ws_lead, lemma_ws_trail, char_is_ws, chars_of, is_ws, push_char, push_decimal, push_str, sbytes, str_eq, strip_prefix_str};

verus! {

pub const CATALOG_URL: &'static str =
    "https://raw.githubusercontent.com/SuperJackfruitLabs/supermd/master/plugins/catalog.json";

/// One installable plugin.
#[derive(Debug, Clone, PartialEq)]
pub struct CatalogEntry {
    pub name: String,
    pub description: String,
    pub version: String,
    pub capabilities: Vec<String>,
    pub download: String,
    pub sha256: String,
}

/// Whether `s` starts with `p`.
pub open spec fn starts_with(s: Seq<char>, p: Seq<char>) -> bool {
    p.len() <= s.len() && s.take(p.len() as int) == p
}

/// Downloads may only come from our repo (exact org/repo prefix).
pub open spec fn spec_url_allowed(url: Seq<char>) -> bool {
    starts_with(url, "https://github.com/SuperJackfruitLabs/supermd/"@) || starts_with(
        url,
        "https://raw.githubusercontent.com/SuperJackfruitLabs/supermd/"@,
    )
}

/// Downloads may only come from our repo (exact org/repo prefix).
pub fn url_allowed(url: &str) -> (r: bool)
    ensures
        r == spec_url_allowed(url@),
{
    strip_prefix_str(url, "https://github.com/SuperJackfruitLabs/supermd/").is_some()
        || strip_prefix_str(url, "https://raw.githubusercontent.com/SuperJackfruitLabs/supermd/").is_some()
}

/// A character a plugin name may hold.
pub open spec fn name_char(c: char) -> bool {
    ('0' <= c <= '9') || ('a' <= c <= 'z') || ('A' <= c <= 'Z') || c == '-' || c == '_'
}

/// The index of the first `&` at or after `i`, or the length.
pub open spec fn next_amp(s: Seq<char>, i: int) -> int
    decreases s.len() - i,
{
    if i >= s.len() || i < 0 {
        s.len() as int
    } else if s[i] == '&' {
        i
    } else {
        next_amp(s, i + 1)
    }
}

pub proof fn lemma_next_amp(s: Seq<char>, i: int)
    requires
        0 <= i <= s.len(),
    ensures
        i <= next_amp(s, i) <= s.len(),
        next_amp(s, i) < s.len() ==> s[next_amp(s, i)] == '&',
        forall|k: int| i <= k < next_amp(s, i) ==> s[k] != '&',
    decreases s.len() - i,
{
    if i < s.len() && s[i] != '&' {
        lemma_next_amp(s, i + 1);
    }
}

/// The value of the first `&`-separated field (from `i` on) that starts
/// with `name=`.
pub open spec fn name_field(s: Seq<char>, i: int) -> Option<Seq<char>>
    decreases s.len() - i,
{
    if i < 0 || i > s.len() {
        None
    } else {
        let e = next_amp(s, i);
        let field = s.subrange(i, e);
        if starts_with(field, "name="@) {
            Some(field.skip("name="@.len() as int))
        } else if e < s.len() {
            proof {
                lemma_next_amp(s, i);
            }
            name_field(s, e + 1)
        } else {
            None
        }
    }
}

/// The plugin a `supermd://install-plugin?name=X` link names, when the
/// link is one and the name is safe.
pub open spec fn spec_parse_install_url(url: Seq<char>) -> Option<Seq<char>> {
    let p = "supermd://install-plugin?"@;
    if !starts_with(url, p) {
        None
    } else {
        match name_field(url.skip(p.len() as int), 0) {
            None => None,
            Some(v) => {
                let name = trimmed(v);
                if name.len() > 0 && forall|k: int| 0 <= k < name.len() ==> name_char(#[trigger] name[k]) {
                    Some(name)
                } else {
                    None
                }
            },
        }
    }
}

/// Whether `v[a..a + p.len()]` spells `p`.
fn chars_at(v: &Vec<char>, a: usize, e: usize, p: &Vec<char>) -> (r: bool)
    requires
        a <= e <= v@.len(),
    ensures
        r == starts_with(v@.subrange(a as int, e as int), p@),
{
    if p.len() > e - a {
        return false;
    }
    let mut k: usize = 0;
    while k < p.len()
        invariant
            k <= p@.len(),
            a + p@.len() <= e <= v@.len(),
            forall|j: int| 0 <= j < k ==> v@[a + j] == p@[j],
        decreases p@.len() - k,
    {
        if v[a + k] != p[k] {
            assert(v@.subrange(a as int, e as int).take(p@.len() as int)[k as int] != p@[k as int]);
            return false;
        }
        k += 1;
    }
    assert(v@.subrange(a as int, e as int).take(p@.len() as int) =~= p@);
    true
}

/// Every safe plugin name survives its own install link: the link
/// `supermd://install-plugin?name=` followed by the name parses back to
/// the name.
pub proof fn lemma_install_url_round_trip(name: Seq<char>)
    requires
        name.len() > 0,
        forall|k: int| 0 <= k < name.len() ==> name_char(#[trigger] name[k]),
    ensures
        spec_parse_install_url("supermd://install-plugin?name="@ + name) == Some(name),
{
    reveal_strlit("supermd://install-plugin?name=");
    reveal_strlit("supermd://install-plugin?");
    reveal_strlit("name=");
    let p = "supermd://install-plugin?"@;
    let key = "name="@;
    let url = "supermd://install-plugin?name="@ + name;
    assert(url.take(p.len() as int) =~= p);
    let s = url.skip(p.len() as int);
    assert(s =~= key + name);
    assert forall|k: int| 0 <= k < s.len() implies s[k] != '&' by {
        if k >= key.len() {
            assert(s[k] == name[k - key.len()]);
        }
    }
    lemma_next_amp(s, 0);
    assert(next_amp(s, 0) == s.len());
    assert(s.subrange(0, s.len() as int) =~= s);
    assert(s.take(key.len() as int) =~= key);
    assert(s.skip(key.len() as int) =~= name);
    assert(!is_ws(name[0]));
    assert(!is_ws(name[name.len() - 1]));
    lemma_ws_lead(name, 0);
    lemma_ws_trail(name, name.len() as int);
    assert(name.subrange(0, name.len() as int) =~= name);
    assert(trimmed(name) == name);
}

/// Extract the plugin name from a `supermd://install-plugin?name=X`
/// handoff. Anything else (a foreign scheme, a different host, a name
/// with path separators) is rejected outright; the name is then looked
/// up in the pinned catalog, so only known plugins can ever install.
pub fn parse_install_url(url: &str) -> (r: Option<String>)
    ensures
        r is None <==> spec_parse_install_url(url@) is None,
        r matches Some(n) ==> spec_parse_install_url(url@) == Some(n@),
{
    let rest = match strip_prefix_str(url, "supermd://install-plugin?") {
        Some(t) => t,
        None => {
            return None;
        },
    };
    let ghost s = rest@;
    let v = chars_of(rest);
    let key = chars_of("name=");
    let n = v.len();
    let mut i: usize = 0;
    let mut found: Option<(usize, usize)> = None;
    loop
        invariant_except_break
            i <= n,
            found is None,
            name_field(s, 0) == name_field(s, i as int),
        invariant
            v@ == s,
            n == s.len(),
            key@ == "name="@,
        ensures
            found matches Some((a, e)) ==> a <= e <= n && name_field(s, 0) == Some(s.subrange(a as int, e as int)),
            found is None ==> name_field(s, 0) is None,
        decreases n - i,
    {
        let mut e = i;
        while e < n && v[e] != '&'
            invariant
                i <= e <= n,
                v@ == s,
                n == s.len(),
                next_amp(s, i as int) == next_amp(s, e as int),
            decreases n - e,
        {
            e += 1;
        }
        proof {
            lemma_next_amp(s, i as int);
        }
        if chars_at(&v, i, e, &key) {
            proof {
                assert(s.subrange(i as int, e as int).skip(key@.len() as int) =~= s.subrange(i + key@.len(), e as int));
            }
            found = Some((i + key.len(), e));
            break;
        }
        if e >= n {
            break;
        }
        i = e + 1;
    }
    let (a, e) = match found {
        Some(x) => x,
        None => {
            return None;
        },
    };
    let ghost fv = s.subrange(a as int, e as int);
    // Trim whitespace from both ends of the field.
    let mut lo = a;
    while lo < e && char_is_ws(v[lo])
        invariant
            a <= lo <= e <= n,
            v@ == s,
            n == s.len(),
            forall|k: int| a <= k < lo ==> is_ws(#[trigger] s[k]),
        decreases e - lo,
    {
        lo += 1;
    }
    proof {
        assert forall|k: int| 0 <= k < lo - a implies is_ws(#[trigger] fv[k]) by {
            assert(fv[k] == s[a + k]);
        }
        lemma_ws_lead(fv, lo - a);
    }
    if lo >= e {
        return None;
    }
    let mut hi = e;
    while hi > lo && char_is_ws(v[hi - 1])
        invariant
            lo <= hi <= e <= n,
            lo < e,
            v@ == s,
            n == s.len(),
            forall|k: int| hi <= k < e ==> is_ws(#[trigger] s[k]),
        decreases hi,
    {
        hi -= 1;
    }
    proof {
        assert forall|k: int| hi - a <= k < fv.len() implies is_ws(#[trigger] fv[k]) by {
            assert(fv[k] == s[a + k]);
        }
        assert(hi > lo) by {
            assert(!is_ws(s[lo as int]));
        }
        lemma_ws_trail(fv, hi - a);
        assert(trimmed(fv) =~= s.subrange(lo as int, hi as int));
    }
    let ghost name = s.subrange(lo as int, hi as int);
    let mut out = String::new();
    let mut k = lo;
    assert(out@ =~= name.take(0));
    while k < hi
        invariant
            lo <= k <= hi <= n,
            v@ == s,
            n == s.len(),
            name_field(s, 0) == Some(fv),
            trimmed(fv) == name,
            name.len() > 0,
            s == url@.skip("supermd://install-plugin?"@.len() as int),
            starts_with(url@, "supermd://install-plugin?"@),
            name == s.subrange(lo as int, hi as int),
            out@ == name.take(k - lo),
            forall|j: int| 0 <= j < k - lo ==> name_char(#[trigger] name[j]),
        decreases hi - k,
    {
        let c = v[k];
        if !(('0' <= c && c <= '9') || ('a' <= c && c <= 'z') || ('A' <= c && c <= 'Z') || c == '-'
            || c == '_') {
            assert(!name_char(name[k - lo]));
            return None;
        }
        push_char(&mut out, c);
        assert(out@ =~= name.take(k + 1 - lo));
        k += 1;
    }
    assert(name.take(hi - lo) =~= name);
    Some(out)
}

/// Look one catalog entry up by name: the first whose name is `name`.
pub fn entry_by_name<'a>(entries: &'a [CatalogEntry], name: &str) -> (r: Option<&'a CatalogEntry>)
    ensures
        r is None <==> forall|i: int| 0 <= i < entries@.len() ==> (#[trigger] entries@[i]).name@ != name@,
        r matches Some(e) ==> exists|i: int|
            0 <= i < entries@.len() && entries@[i] == *e && e.name@ == name@ && forall|j: int|
                0 <= j < i ==> (#[trigger] entries@[j]).name@ != name@,
{
    let mut i: usize = 0;
    while i < entries.len()
        invariant
            i <= entries@.len(),
            forall|j: int| 0 <= j < i ==> (#[trigger] entries@[j]).name@ != name@,
        decreases entries@.len() - i,
    {
        if str_eq(entries[i].name.as_str(), name) {
            return Some(&entries[i]);
        }
        i += 1;
    }
    None
}

/// The SHA-256 digest of `bytes` (32 bytes).
pub uninterp spec fn spec_sha256(bytes: Seq<u8>) -> Seq<u8>;

/// `sha2::Sha256::digest`, formatted with `{:x}`: the lowercase hex of
/// the digest. The digest itself is named `spec_sha256`; generic-array's
/// `LowerHex` writes two lowercase digits per byte, high nibble first,
/// which is `hex_bytes`.
#[verifier::external_body]
fn sha256_hex(bytes: &[u8]) -> (r: String)
    ensures
        sbytes(r) == hex_bytes(spec_sha256(bytes@)),
{
    format!("{:x}", sha2::Sha256::digest(bytes))
}

/// What installing `entry` needs before anything is fetched: its URL
/// must be ours, and it must not be installed already.
pub open spec fn spec_install_preflight(entry: CatalogEntry, already_installed: bool) -> Result<(), Seq<char>> {
    if !spec_url_allowed(entry.download@) {
        Err("download URL is not from the SuperMD repo: "@ + entry.download@)
    } else if already_installed {
        Err(entry.name@ + " is already installed"@)
    } else {
        Ok(())
    }
}

/// The checks that come before the download: the URL is org-pinned,
/// and `already_installed` (whether the plugins folder holds the name)
/// is false. Only on `Ok` may the shell fetch `entry.download`.
pub fn install_preflight(entry: &CatalogEntry, already_installed: bool) -> (r: Result<(), String>)
    ensures
        match r {
            Ok(()) => spec_install_preflight(*entry, already_installed) is Ok,
            Err(e) => spec_install_preflight(*entry, already_installed) == Err::<(), Seq<char>>(e@),
        },
{
    if !url_allowed(entry.download.as_str()) {
        let mut e = String::new();
        push_str(&mut e, "download URL is not from the SuperMD repo: ");
        push_str(&mut e, entry.download.as_str());
        return Err(e);
    }
    if already_installed {
        let mut e = String::new();
        push_str(&mut e, entry.name.as_str());
        push_str(&mut e, " is already installed");
        return Err(e);
    }
    Ok(())
}

/// A download is the pinned one when its digest's hex is the catalog's
/// `sha256`.
pub open spec fn download_matches(entry: CatalogEntry, bytes: Seq<u8>) -> bool {
    hex_bytes(spec_sha256(bytes)) == sbytes(entry.sha256)
}

/// The check after the download: its SHA-256 must match the catalog.
pub fn check_download(entry: &CatalogEntry, bytes: &[u8]) -> (r: Result<(), String>)
    ensures
        r is Ok <==> download_matches(*entry, bytes@),
        r matches Err(e) ==> e@ == "download did not match the catalog checksum"@,
{
    let digest = sha256_hex(bytes);
    if !str_eq(digest.as_str(), entry.sha256.as_str()) {
        proof {
            if download_matches(*entry, bytes@) {
                crate::text::lemma_encode_injective(digest@, entry.sha256@);
            }
        }
        let mut e = String::new();
        push_str(&mut e, "download did not match the catalog checksum");
        return Err(e);
    }
    Ok(())
}

/// What an install ends in once the fetch for `entry` answered `fetched`:
/// the fetch's error, the checksum error, or the verified archive.
pub open spec fn fetched_outcome(entry: CatalogEntry, fetched: Result<Vec<u8>, String>) -> Result<Seq<u8>, Seq<char>> {
    match fetched {
        Err(e) => Err(e@),
        Ok(bytes) => if download_matches(entry, bytes@) {
            Ok(bytes@)
        } else {
            Err("download did not match the catalog checksum"@)
        },
    }
}

/// The result as plain values.
pub open spec fn install_view(r: Result<Vec<u8>, String>) -> Result<Seq<u8>, Seq<char>> {
    match r {
        Ok(b) => Ok(b@),
        Err(e) => Err(e@),
    }
}

/// Vets one catalog entry for installing: the URL must be ours and the
/// plugin not installed yet (`already_installed` says whether the
/// plugins folder holds its name); only then is `entry.download`
/// fetched, and the download must match the pinned checksum. Gives the
/// verified archive, which the shell then validates and unpacks, so
/// the plugins folder is only touched after everything checks out.
pub fn install_plugin<F>(entry: &CatalogEntry, already_installed: bool, fetch: F) -> (r: Result<Vec<u8>, String>)
    where F: Fn(&str) -> Result<Vec<u8>, String>,
    requires
        forall|u: &str| fetch.requires((u,)),
    ensures
        spec_install_preflight(*entry, already_installed) matches Err(e) ==> install_view(r) == Err::<Seq<u8>, Seq<char>>(e),
        spec_install_preflight(*entry, already_installed) is Ok ==> exists|u: &str, fetched: Result<Vec<u8>, String>|
            u@ == entry.download@ && #[trigger] fetch.ensures((u,), fetched)
                && install_view(r) == fetched_outcome(*entry, fetched),
{
    match install_preflight(entry, already_installed) {
        Err(e) => Err(e),
        Ok(()) => {
            let url: &str = entry.download.as_str();
            let fetched = fetch(url);
            match fetched {
                Err(e) => Err(e),
                Ok(bytes) => match check_download(entry, bytes.as_slice()) {
                    Err(e) => Err(e),
                    Ok(()) => Ok(bytes),
                },
            }
        },
    }
}

/// The plugins of a catalog file of version `catalog_version`; unknown
/// versions are an error so old builds fail clearly on a future format.
pub fn catalog_plugins(catalog_version: u32, plugins: Vec<CatalogEntry>) -> (r: Result<Vec<CatalogEntry>, String>)
    ensures
        catalog_version == 1 ==> r == Ok::<Vec<CatalogEntry>, String>(plugins),
        catalog_version != 1 ==> (r matches Err(e) && sbytes(e) == "catalog version ".spec_bytes()
            + crate::text::decimal(catalog_version as nat)
            + " is newer than this SuperMD understands".spec_bytes()),
{
    if catalog_version != 1 {
        let mut e = String::new();
        push_str(&mut e, "catalog version ");
        push_decimal(&mut e, catalog_version as u64);
        push_str(&mut e, " is newer than this SuperMD understands");
        return Err(e);
    }
    Ok(plugins)
}

/// The entry names of a zip archive, in archive order, as the `zip`
/// crate lists them; `Err` with its message when it cannot read them.
pub uninterp spec fn zip_listing(bytes: Seq<u8>) -> Result<Seq<Seq<char>>, Seq<char>>;

/// The names of the entries of an in-memory zip archive:
/// `zip::ZipArchive::new` over the bytes, then each entry's name by index.
#[verifier::external_body]
fn zip_entry_names(bytes: &[u8]) -> (r: Result<Vec<String>, String>)
    ensures
        match (r, zip_listing(bytes@)) {
            (Ok(v), Ok(names)) => v@.len() == names.len() && forall|i: int|
                0 <= i < names.len() ==> (#[trigger] v@[i])@ == names[i],
            (Err(e), Err(msg)) => e@ == msg,
            _ => false,
        },
{
    let mut archive = match zip::ZipArchive::new(std::io::Cursor::new(bytes)) {
        Ok(a) => a,
        Err(e) => return Err(e.to_string()),
    };
    let mut names = Vec::new();
    for i in 0..archive.len() {
        let file = archive.by_index(i).map_err(|e| e.to_string())?;
        names.push(file.name().map_err(|e| e.to_string())?.to_string());
    }
    Ok(names)
}

/// The part of a path before its first `/`.
pub open spec fn first_component(p: Seq<char>) -> Seq<char>
    decreases p.len(),
{
    if p.len() == 0 || p[0] == '/' {
        Seq::empty()
    } else {
        seq![p[0]] + first_component(p.drop_first())
    }
}

/// The distinct non-empty top-level directories of `names`, in order of
/// first appearance.
pub open spec fn roots_of(names: Seq<Seq<char>>) -> Seq<Seq<char>>
    decreases names.len(),
{
    if names.len() == 0 {
        Seq::empty()
    } else {
        let r = roots_of(names.drop_last());
        let c = first_component(names.last());
        if c.len() > 0 && !r.contains(c) {
            r.push(c)
        } else {
            r
        }
    }
}

/// The error for an archive that is not one plugin directory.
pub open spec fn one_root_error() -> Seq<char> {
    "archive must contain exactly one plugin directory"@
}

/// The part of `p` before its first `/`.
fn root_of(p: &str) -> (r: String)
    ensures
        r@ == first_component(p@),
{
    let cs = chars_of(p);
    let mut k: usize = 0;
    while k < cs.len() && cs[k] != '/'
        invariant
            k <= cs@.len(),
            forall|j: int| 0 <= j < k ==> cs@[j] != '/',
        decreases cs@.len() - k,
    {
        k += 1;
    }
    proof {
        lemma_first_component(cs@, k as int);
    }
    crate::text::string_of(&cs, 0, k)
}

proof fn lemma_first_component(p: Seq<char>, k: int)
    requires
        0 <= k <= p.len(),
        forall|j: int| 0 <= j < k ==> p[j] != '/',
        k == p.len() || p[k] == '/',
    ensures
        first_component(p) == p.subrange(0, k),
    decreases k,
{
    if k > 0 {
        lemma_first_component(p.drop_first(), k - 1);
        assert(p.subrange(0, k) =~= seq![p[0]] + p.drop_first().subrange(0, k - 1));
    } else {
        assert(p.subrange(0, 0) =~= Seq::<char>::empty());
    }
}

/// The plugin name an archive listing names: its one top-level
/// directory.
pub fn plugin_name_from_names(names: &Vec<String>) -> (r: Result<String, String>)
    ensures
        ({
            let roots = roots_of(names@.map_values(|n: String| n@));
            &&& roots.len() == 1 ==> (r matches Ok(name) && name@ == roots[0])
            &&& roots.len() != 1 ==> (r matches Err(e) && e@ == one_root_error())
        }),
{
    let ghost all = names@.map_values(|n: String| n@);
    let mut roots: Vec<String> = Vec::new();
    let mut i: usize = 0;
    while i < names.len()
        invariant
            i <= names@.len(),
            all == names@.map_values(|n: String| n@),
            roots@.map_values(|n: String| n@) == roots_of(all.take(i as int)),
        decreases names@.len() - i,
    {
        let root = root_of(names[i].as_str());
        let ghost before = roots@.map_values(|n: String| n@);
        proof {
            assert(all.take(i + 1).drop_last() =~= all.take(i as int));
            assert(all.take(i + 1).last() == names@[i as int]@);
        }
        let mut seen = false;
        let mut j: usize = 0;
        while j < roots.len()
            invariant
                j <= roots@.len(),
                before == roots@.map_values(|n: String| n@),
                seen == exists|m: int| 0 <= m < j && before[m] == root@,
            decreases roots@.len() - j,
        {
            assert(before[j as int] == roots@[j as int]@);
            if str_eq(roots[j].as_str(), root.as_str()) {
                seen = true;
            }
            j += 1;
        }
        proof {
            assert(seen == before.contains(root@));
        }
        if !root.as_str().is_empty() && !seen {
            roots.push(root);
            proof {
                assert(roots@.map_values(|n: String| n@) =~= before.push(first_component(
                    names@[i as int]@,
                )));
            }
        } else {
            proof {
                assert(roots@.map_values(|n: String| n@) == before);
            }
        }
        i += 1;
    }
    proof {
        assert(all.take(names@.len() as int) =~= all);
    }
    if roots.len() == 1 {
        let only = roots.pop().unwrap();
        Ok(only)
    } else {
        let mut e = String::new();
        push_str(&mut e, "archive must contain exactly one plugin directory");
        proof {
            assert(e@ =~= one_root_error());
        }
        Err(e)
    }
}

/// The single top-level directory name inside a plugin archive: the
/// plugin's name.
pub fn plugin_name_from_zip(bytes: &[u8]) -> (r: Result<String, String>)
    ensures
        match zip_listing(bytes@) {
            Err(msg) => r matches Err(e) && e@ == msg,
            Ok(names) => {
                let roots = roots_of(names);
                &&& roots.len() == 1 ==> (r matches Ok(name) && name@ == roots[0])
                &&& roots.len() != 1 ==> (r matches Err(e) && e@ == one_root_error())
            },
        },
{
    match zip_entry_names(bytes) {
        Err(e) => Err(e),
        Ok(names) => {
            proof {
                let listed = zip_listing(bytes@)->Ok_0;
                assert(names@.map_values(|n: String| n@) =~= listed);
            }
            plugin_name_from_names(&names)
        },
    }
}

} // verus!
