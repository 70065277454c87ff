//! The editor's pure core: text edits, find and replace, lists,
//! formatting, the display transform, and the document projection.
use vstd::prelude::*;
use crate::text::{boundary, decimal, push_str, sbytes, str_eq, substr};
use core::ops::Range;
use vstd::string::StringSliceAdditionalSpecFns;
pub mod autosave;
pub mod blocks;
pub mod buffer;
pub mod movement;
pub mod spans;
pub mod display;
pub mod find;
pub mod replace;
pub mod editor_core;
pub mod formatting;
pub mod lists;
pub mod paste_image;
pub mod projection;
pub mod projector;
pub mod utf16;

verus! {

/// Digits needed for the last line number (gutter width).
pub fn gutter_cols(line_count: usize) -> (r: usize)
    ensures
        r == decimal(if line_count == 0 {
            1nat
        } else {
            line_count as nat
        }).len(),
        1 <= r <= if line_count == 0 {
            1
        } else {
            line_count
        },
    decreases line_count,
{
    if line_count < 10 {
        1
    } else {
        1 + gutter_cols(line_count / 10)
    }
}

/// Whether a click should navigate rather than place the caret.
///
/// A rendered link follows on a plain click. A link whose syntax is
/// revealed is one the cursor is already inside, so a plain click there
/// edits it; otherwise the link could never be corrected. A click with
/// the command modifier always follows.
pub fn click_follows_link(has_modifier: bool, on_link: bool, revealed: bool) -> (r: bool)
    ensures
        r == (on_link && (has_modifier || !revealed)),
{
    on_link && (has_modifier || !revealed)
}

/// Whether the find-previous chord belongs to the editor's find bar or
/// falls through to the global binding that shares it.
pub fn find_prev_should_consume(find_open: bool) -> (r: bool)
    ensures
        r == find_open,
{
    find_open
}

/// What a save hook's outcome leaves of the document: a hook that
/// answers with a new text replaces it; one that fails or declines
/// leaves it as it was.
pub open spec fn hook_step(doc: Seq<char>, outcome: Result<Option<String>, String>) -> Seq<char> {
    match outcome {
        Ok(Some(next)) => next@,
        _ => doc,
    }
}

/// The documents the hooks saw, in order: `docs[0]` is the text before
/// the first hook, and `docs[i + 1]` what the `i`-th hook's outcome left.
pub open spec fn hook_docs_follow(
    text: Seq<char>,
    outcomes: Seq<Result<Option<String>, String>>,
    docs: Seq<Seq<char>>,
) -> bool {
    &&& docs.len() == outcomes.len() + 1
    &&& docs[0] == text
    &&& forall|i: int| 0 <= i < outcomes.len() ==> #[trigger] docs[i + 1] == hook_step(docs[i], outcomes[i])
}

/// The first `names.len()` hooks of `plugins` ran in order on `path`:
/// the `i`-th was called with the plugin's name and the document
/// `docs[i]`, and answered `outcomes[i]`.
pub open spec fn hooks_ran<F>(
    call: F,
    path: &str,
    plugins: Seq<String>,
    text: Seq<char>,
    names: Seq<&str>,
    seen: Seq<&str>,
    outcomes: Seq<Result<Option<String>, String>>,
    docs: Seq<Seq<char>>,
) -> bool
    where F: Fn(&str, &str, &str) -> Result<Option<String>, String>,
{
    &&& names.len() <= plugins.len()
    &&& seen.len() == names.len()
    &&& outcomes.len() == names.len()
    &&& hook_docs_follow(text, outcomes, docs)
    &&& forall|i: int| 0 <= i < names.len() ==> {
        &&& (#[trigger] names[i])@ == plugins[i]@
        &&& seen[i]@ == docs[i]
        &&& call.ensures((names[i], path, seen[i]), outcomes[i])
    }
}

/// Runs the save-hook chain: each plugin sees the previous result, and
/// a failure or a declined hook leaves the text unchanged for the next.
pub fn chain_save_hooks<F>(text: String, path: &str, plugins: &[String], call: F) -> (r: String)
    where F: Fn(&str, &str, &str) -> Result<Option<String>, String>,
    requires
        forall|name: &str, p: &str, doc: &str| call.requires((name, p, doc)),
    ensures
        exists|names: Seq<&str>, seen: Seq<&str>, outcomes: Seq<Result<Option<String>, String>>, docs: Seq<Seq<char>>|
            #[trigger] hooks_ran(call, path, plugins@, text@, names, seen, outcomes, docs)
            && names.len() == plugins@.len()
            && r@ == docs[plugins@.len() as int],
{
    let mut acc = text;
    let ghost mut names: Seq<&str> = Seq::empty();
    let ghost mut seen: Seq<&str> = Seq::empty();
    let ghost mut outcomes: Seq<Result<Option<String>, String>> = Seq::empty();
    let ghost mut docs: Seq<Seq<char>> = seq![text@];
    let mut i: usize = 0;
    while i < plugins.len()
        invariant
            i <= plugins@.len(),
            forall|name: &str, p: &str, doc: &str| call.requires((name, p, doc)),
            names.len() == i,
            hooks_ran(call, path, plugins@, text@, names, seen, outcomes, docs),
            acc@ == docs[i as int],
        decreases plugins.len() - i,
    {
        let name: &str = plugins[i].as_str();
        let doc: &str = acc.as_str();
        let outcome = call(name, path, doc);
        let ghost before = docs;
        let ghost names0 = names;
        let ghost seen0 = seen;
        let ghost outcomes0 = outcomes;
        proof {
            names = names.push(name);
            seen = seen.push(doc);
            outcomes = outcomes.push(outcome);
            docs = docs.push(hook_step(acc@, outcome));
            assert forall|k: int| 0 <= k < outcomes.len() implies #[trigger] docs[k + 1] == hook_step(docs[k], outcomes[k]) by {
                if k < i {
                    assert(docs[k + 1] == before[k + 1]);
                    assert(outcomes[k] == outcomes0[k]);
                }
            }
            assert forall|k: int| 0 <= k < names.len() implies {
                &&& (#[trigger] names[k])@ == plugins@[k]@
                &&& seen[k]@ == docs[k]
                &&& call.ensures((names[k], path, seen[k]), outcomes[k])
            } by {
                if k < i {
                    assert(names[k] == names0[k]);
                    assert(seen[k] == seen0[k]);
                    assert(outcomes[k] == outcomes0[k]);
                    assert(docs[k] == before[k]);
                }
            }
        }
        acc = match outcome {
            Ok(Some(next)) => next,
            _ => acc,
        };
        i = i + 1;
    }
    acc
}

/// The enriched document and the range its replacement now covers, or
/// `None` when the document changed since the paste snapshot (the
/// enrichment is then forfeited).
pub fn enrich_plan(current: &str, pasted: Range<usize>, snapshot: &str, replacement: &str) -> (r: Option<(String, Range<usize>)>)
    requires
        current@ == snapshot@ ==> {
            &&& pasted.start <= pasted.end <= current.spec_bytes().len()
            &&& boundary(current, pasted.start as int)
            &&& boundary(current, pasted.end as int)
            &&& pasted.start + replacement.spec_bytes().len() <= usize::MAX
        },
    ensures
        current@ != snapshot@ ==> r is None,
        current@ == snapshot@ ==> (r matches Some((out, range)) && {
            &&& sbytes(out) == current.spec_bytes().subrange(0, pasted.start as int)
                + replacement.spec_bytes()
                + current.spec_bytes().subrange(pasted.end as int, current.spec_bytes().len() as int)
            &&& range.start == pasted.start
            &&& range.end == pasted.start + replacement.spec_bytes().len()
        }),
{
    if !str_eq(current, snapshot) {
        return None;
    }
    let n = current.as_bytes().len();
    proof {
        vstd::utf8::encode_utf8_valid_utf8(current@);
        vstd::utf8::is_char_boundary_start_end_of_seq(current.spec_bytes());
    }
    let mut out = String::new();
    push_str(&mut out, substr(current, 0, pasted.start));
    push_str(&mut out, replacement);
    push_str(&mut out, substr(current, pasted.end, n));
    let end = pasted.start + replacement.as_bytes().len();
    Some((out, pasted.start..end))
}

/// What `std::path::Path::extension` gives for the path `path`.
pub uninterp spec fn path_extension(path: Seq<char>) -> Option<Seq<char>>;

/// `Path::extension` of the path written `path`: the text after the
/// last dot of its file name, if it has one.
#[verifier::external_body]
fn extension_of(path: &str) -> (r: Option<String>)
    ensures
        match r {
            Some(e) => path_extension(path@) == Some(e@),
            None => path_extension(path@) == None::<Seq<char>>,
        },
{
    std::path::Path::new(path).extension().and_then(|e| e.to_str()).map(|e| e.to_string())
}

/// The extensions under which a file is edited as Markdown.
pub open spec fn markdown_extension(e: Seq<char>) -> bool {
    e == "md"@ || e == "markdown"@ || e == "mdown"@ || e == "mdx"@
}

/// Whether the file at `path` is a Markdown document, by its extension.
pub fn is_markdown(path: &str) -> (r: bool)
    ensures
        r == (path_extension(path@) matches Some(e) && markdown_extension(e)),
{
    match extension_of(path) {
        Some(e) => {
            let e = e.as_str();
            str_eq(e, "md") || str_eq(e, "markdown") || str_eq(e, "mdown") || str_eq(e, "mdx")
        },
        None => false,
    }
}

} // verus!
