//! Diagram cache keys, themes and the cache: what identifies one rendered
//! diagram, the palette handed to the renderer, and the bounded cache of
//! render states. Rendering itself (mermaid to SVG, SVG to PNG) belongs
//! to the shell.
use vstd::prelude::*;
use vstd::string::*;
use core::ops::Range;
use std::collections::hash_map::DefaultHasher;
use std::hash::{BuildHasher, BuildHasherDefault};
use crate::text::{is_boundary, push_str, sbytes, substr};
use merman::MermaidConfig;
use merman::render::{
    CssOverridePolicy, CssOverridePostprocessor, HeadlessRenderer, RootBackgroundPostprocessor, SvgPipeline,
    SvgPipelinePreset,
};

verus! {

broadcast use vstd::utf8::encode_utf8_valid_utf8;

/// The palette handed to mermaid's `base` theme via an init directive.
#[derive(Clone, PartialEq, Eq, Debug)]
pub struct DiagramTheme {
    /// `#rrggbb`: the canvas.
    pub background: String,
    /// Node fill (raised, like code blocks).
    pub surface: String,
    pub primary: String,
    pub text: String,
    pub muted: String,
    pub border: String,
    pub font_body: String,
    pub dark: bool,
}

/// What identifies one rendered diagram in the cache.
#[derive(Clone, PartialEq, Eq, Hash, Debug, Structural)]
pub struct DiagramKey {
    pub source_hash: u64,
    /// The workspace root the render ran against, hashed; 0 for a
    /// render that cannot read one (merman, or no host root).
    ///
    /// The cache is process-wide and shared by every window. A plugin
    /// fence renderer holding `workspace-read` reads files named in the
    /// fence body, so the same fence body in two vaults is two different
    /// pictures: the root keeps them apart.
    pub root_hash: u64,
    pub theme_fingerprint: u64,
    pub width_bucket: u32,
}

/// The `DefaultHasher` hash of a string.
pub uninterp spec fn spec_hash_str(s: Seq<char>) -> u64;

/// `BuildHasher::hash_one` of a string with the default `DefaultHasher`:
/// a fresh hasher fed the string, then finished. std documents every
/// `DefaultHasher::new()` as the same hasher, so the result depends on
/// the string alone; it is named `spec_hash_str`.
#[verifier::external_body]
fn hash_str(s: &str) -> (r: u64)
    ensures
        r == spec_hash_str(s@),
{
    BuildHasherDefault::<DefaultHasher>::default().hash_one(s)
}

/// The `DefaultHasher` hash of a theme's fields, hashed in order.
pub uninterp spec fn spec_theme_hash(
    background: Seq<char>,
    surface: Seq<char>,
    primary: Seq<char>,
    text: Seq<char>,
    muted: Seq<char>,
    border: Seq<char>,
    font_body: Seq<char>,
    dark: bool,
) -> u64;

impl DiagramTheme {
    /// The palette's fingerprint: `BuildHasher::hash_one` of its fields,
    /// which a fresh `DefaultHasher` is fed in order (a tuple hashes its
    /// fields one after another), then finished. std documents every `DefaultHasher::new()` as the
    /// same hasher, so the result depends on the fields alone; it is
    /// named `spec_theme_hash`.
    #[verifier::external_body]
    pub fn fingerprint(&self) -> (r: u64)
        ensures
            r == spec_theme_hash(
                self.background@,
                self.surface@,
                self.primary@,
                self.text@,
                self.muted@,
                self.border@,
                self.font_body@,
                self.dark,
            ),
    {
        BuildHasherDefault::<DefaultHasher>::default().hash_one((
            &self.background,
            &self.surface,
            &self.primary,
            &self.text,
            &self.muted,
            &self.border,
            &self.font_body,
            self.dark,
        ))
    }

    /// The Mermaid site configuration carrying the palette, as JSON text.
    pub fn site_config(&self) -> (r: String)
        ensures
            r@ == site_config_text(*self),
    {
        let mut out = String::new();
        push_str(&mut out, "{\"theme\":\"base\",\"htmlLabels\":false,\"flowchart\":{\"htmlLabels\":false},\"fontFamily\":");
        push_json(&mut out, self.font_body.as_str());
        push_str(&mut out, ",\"themeVariables\":{\"background\":");
        push_json(&mut out, self.background.as_str());
        push_str(&mut out, ",\"mainBkg\":");
        push_json(&mut out, self.surface.as_str());
        push_str(&mut out, ",\"primaryColor\":");
        push_json(&mut out, self.surface.as_str());
        push_str(&mut out, ",\"primaryTextColor\":");
        push_json(&mut out, self.text.as_str());
        push_str(&mut out, ",\"primaryBorderColor\":");
        push_json(&mut out, self.primary.as_str());
        push_str(&mut out, ",\"secondaryColor\":");
        push_json(&mut out, self.surface.as_str());
        push_str(&mut out, ",\"secondaryTextColor\":");
        push_json(&mut out, self.text.as_str());
        push_str(&mut out, ",\"tertiaryColor\":");
        push_json(&mut out, self.background.as_str());
        push_str(&mut out, ",\"tertiaryTextColor\":");
        push_json(&mut out, self.text.as_str());
        push_str(&mut out, ",\"lineColor\":");
        push_json(&mut out, self.muted.as_str());
        push_str(&mut out, ",\"textColor\":");
        push_json(&mut out, self.text.as_str());
        push_str(&mut out, ",\"nodeBorder\":");
        push_json(&mut out, self.primary.as_str());
        push_str(&mut out, ",\"clusterBkg\":");
        push_json(&mut out, self.background.as_str());
        push_str(&mut out, ",\"clusterBorder\":");
        push_json(&mut out, self.border.as_str());
        push_str(&mut out, ",\"actorBkg\":");
        push_json(&mut out, self.surface.as_str());
        push_str(&mut out, ",\"actorBorder\":");
        push_json(&mut out, self.primary.as_str());
        push_str(&mut out, ",\"actorTextColor\":");
        push_json(&mut out, self.text.as_str());
        push_str(&mut out, ",\"actorLineColor\":");
        push_json(&mut out, self.muted.as_str());
        push_str(&mut out, ",\"signalColor\":");
        push_json(&mut out, self.text.as_str());
        push_str(&mut out, ",\"signalTextColor\":");
        push_json(&mut out, self.text.as_str());
        push_str(&mut out, ",\"noteBkgColor\":");
        push_json(&mut out, self.surface.as_str());
        push_str(&mut out, ",\"noteTextColor\":");
        push_json(&mut out, self.text.as_str());
        push_str(&mut out, ",\"noteBorderColor\":");
        push_json(&mut out, self.border.as_str());
        push_str(&mut out, ",\"labelBoxBkgColor\":");
        push_json(&mut out, self.surface.as_str());
        push_str(&mut out, ",\"labelTextColor\":");
        push_json(&mut out, self.text.as_str());
        push_str(&mut out, ",\"edgeLabelBackground\":");
        push_json(&mut out, self.background.as_str());
        push_str(&mut out, ",\"fontFamily\":");
        push_json(&mut out, self.font_body.as_str());
        push_str(&mut out, ",\"darkMode\":");
        push_str(&mut out, if self.dark {
            "true"
        } else {
            "false"
        });
        push_str(&mut out, "}}");
        proof {
            assert(out@ =~= site_config_text(*self));
        }
        out
    }
}

/// The font a diagram is drawn in: the body family, unless it is a
/// private system name (leading `.`) that the rasterizer cannot resolve.
pub open spec fn spec_diagram_font(body_family: Seq<char>) -> Seq<char> {
    if body_family.len() > 0 && body_family[0] == '.' {
        "Helvetica Neue, Helvetica, Arial, sans-serif"@
    } else {
        body_family
    }
}

/// The font a diagram is drawn in, for a theme's body family.
/// ".SystemUIFont" is a private name the rasterizer's font database
/// cannot resolve, so such names become the closest real face.
pub fn diagram_font(body_family: &str) -> (r: String)
    ensures
        r@ == spec_diagram_font(body_family@),
{
    let mut out = String::new();
    let v = crate::text::chars_of(body_family);
    if v.len() > 0 && v[0] == '.' {
        push_str(&mut out, "Helvetica Neue, Helvetica, Arial, sans-serif");
    } else {
        push_str(&mut out, body_family);
    }
    out
}

impl DiagramKey {
    /// Hash of the workspace root a render may read under. `None` (no
    /// folder open, or a renderer that reads nothing) is 0.
    pub fn root(root: Option<&str>) -> (r: u64)
        ensures
            r == match root {
                None => 0,
                Some(p) => spec_hash_str(p@),
            },
    {
        match root {
            None => 0,
            Some(p) => hash_str(p),
        }
    }
}

/// The text of a fence body, for the byte range `fence`; empty when the
/// range is out of bounds or does not fall on character boundaries.
pub open spec fn spec_body_of_fence(text: &str, fence: Range<usize>) -> Seq<u8> {
    let t = text.spec_bytes();
    if fence.start <= fence.end <= t.len() && crate::text::boundary(text, fence.start as int)
        && crate::text::boundary(text, fence.end as int) {
        t.subrange(fence.start as int, fence.end as int)
    } else {
        seq![]
    }
}

/// Convenience for widgets: the body of a fence, sliced out of the text.
pub fn body_of_fence(text: &str, fence: &Range<usize>) -> (r: String)
    ensures
        sbytes(r) == spec_body_of_fence(text, *fence),
{
    let mut out = String::new();
    let b = text.as_bytes();
    if fence.start <= fence.end && fence.end <= b.len() && is_boundary(b, fence.start)
        && is_boundary(b, fence.end) {
        push_str(&mut out, substr(text, fence.start, fence.end));
    }
    assert(sbytes(out) =~= spec_body_of_fence(text, *fence));
    out
}

/// How many diagrams the cache keeps.
pub const CACHE_CAP: usize = 128;

/// The state stored under `key`, if any: the first entry with that key.
pub open spec fn lookup<S>(entries: Seq<(DiagramKey, S)>, key: DiagramKey) -> Option<S>
    decreases entries.len(),
{
    if entries.len() == 0 {
        None
    } else if entries[0].0 == key {
        Some(entries[0].1)
    } else {
        lookup(entries.drop_first(), key)
    }
}

/// No key occurs twice.
pub open spec fn distinct_keys<S>(entries: Seq<(DiagramKey, S)>) -> bool {
    forall|i: int, j: int|
        0 <= i < j < entries.len() ==> (#[trigger] entries[i]).0 != (#[trigger] entries[j]).0
}

/// Rendered diagrams by key, oldest first; past `CACHE_CAP` entries the
/// oldest is dropped. `S` is what the shell stores for a diagram.
pub struct DiagramCache<S> {
    entries: Vec<(DiagramKey, S)>,
}

impl<S> View for DiagramCache<S> {
    type V = Seq<(DiagramKey, S)>;

    closed spec fn view(&self) -> Seq<(DiagramKey, S)> {
        self.entries@
    }
}

proof fn lemma_lookup_at<S>(entries: Seq<(DiagramKey, S)>, i: int)
    requires
        distinct_keys(entries),
        0 <= i < entries.len(),
    ensures
        lookup(entries, entries[i].0) == Some(entries[i].1),
    decreases i,
{
    if i > 0 {
        assert(entries[0].0 != entries[i].0);
        let rest = entries.drop_first();
        assert(rest[i - 1] == entries[i]);
        assert(distinct_keys(rest)) by {
            assert forall|a: int, b: int| 0 <= a < b < rest.len() implies (#[trigger] rest[a]).0
                != (#[trigger] rest[b]).0 by {
                assert(rest[a] == entries[a + 1]);
                assert(rest[b] == entries[b + 1]);
            }
        }
        lemma_lookup_at(rest, i - 1);
    }
}

proof fn lemma_lookup_absent<S>(entries: Seq<(DiagramKey, S)>, key: DiagramKey)
    requires
        forall|i: int| 0 <= i < entries.len() ==> (#[trigger] entries[i]).0 != key,
    ensures
        lookup(entries, key) is None,
    decreases entries.len(),
{
    if entries.len() > 0 {
        let rest = entries.drop_first();
        assert forall|i: int| 0 <= i < rest.len() implies (#[trigger] rest[i]).0 != key by {
            assert(rest[i] == entries[i + 1]);
        }
        lemma_lookup_absent(rest, key);
    }
}

impl<S> Default for DiagramCache<S> {
    fn default() -> (r: Self)
        ensures
            r.wf(),
            r@ == Seq::<(DiagramKey, S)>::empty(),
    {
        DiagramCache { entries: Vec::new() }
    }
}

impl<S> DiagramCache<S> {
    /// Keys are distinct and there are at most `CACHE_CAP` of them.
    pub closed spec fn wf(&self) -> bool {
        distinct_keys(self.entries@) && self.entries@.len() <= CACHE_CAP
    }

    pub fn new() -> (r: Self)
        ensures
            r.wf(),
            r@ == Seq::<(DiagramKey, S)>::empty(),
    {
        DiagramCache { entries: Vec::new() }
    }

    /// Where `key` is stored, if it is.
    fn position(&self, key: &DiagramKey) -> (r: Option<usize>)
        ensures
            r matches Some(i) ==> i < self@.len() && self@[i as int].0 == *key,
            r is None ==> forall|i: int| 0 <= i < self@.len() ==> (#[trigger] self@[i]).0 != *key,
    {
        let mut i: usize = 0;
        while i < self.entries.len()
            invariant
                i <= self.entries@.len(),
                forall|j: int| 0 <= j < i ==> (#[trigger] self.entries@[j]).0 != *key,
            decreases self.entries@.len() - i,
        {
            if self.entries[i].0 == *key {
                return Some(i);
            }
            i += 1;
        }
        None
    }

    /// Stores `state` under `key`: in place when the key is cached, else
    /// as the newest entry, dropping the oldest past `CACHE_CAP`.
    pub fn insert(&mut self, key: DiagramKey, state: S)
        requires
            old(self).wf(),
        ensures
            final(self).wf(),
            final(self)@.len() <= CACHE_CAP,
            lookup(final(self)@, key) == Some(state),
            forall|i: int| 0 <= i < old(self)@.len() && (#[trigger] old(self)@[i]).0 == key
                ==> final(self)@ == old(self)@.update(i, (key, state)),
            !(exists|i: int| 0 <= i < old(self)@.len() && (#[trigger] old(self)@[i]).0 == key)
                ==> final(self)@ == if old(self)@.len() < CACHE_CAP {
                old(self)@.push((key, state))
            } else {
                old(self)@.push((key, state)).drop_first()
            },
    {
        let ghost before = self.entries@;
        match self.position(&key) {
            Some(i) => {
                self.entries.set(i, (key, state));
                proof {
                    assert(self.entries@ == before.update(i as int, (key, state)));
                    assert(distinct_keys(self.entries@)) by {
                        assert forall|a: int, b: int| 0 <= a < b < self.entries@.len() implies (
                        #[trigger] self.entries@[a]).0 != (#[trigger] self.entries@[b]).0 by {
                            assert(before[a].0 != before[b].0);
                        }
                    }
                    lemma_lookup_at(self.entries@, i as int);
                }
            },
            None => {
                self.entries.push((key, state));
                if self.entries.len() > CACHE_CAP {
                    self.entries.remove(0);
                }
                proof {
                    let pushed = before.push((key, state));
                    assert(distinct_keys(pushed)) by {
                        assert forall|a: int, b: int| 0 <= a < b < pushed.len() implies (
                        #[trigger] pushed[a]).0 != (#[trigger] pushed[b]).0 by {
                            if b < before.len() {
                                assert(before[a].0 != before[b].0);
                            } else {
                                assert(pushed[a] == before[a]);
                            }
                        }
                    }
                    if before.len() < CACHE_CAP {
                        assert(self.entries@ == pushed);
                    } else {
                        assert(self.entries@ =~= pushed.drop_first());
                    }
                    let n = self.entries@.len();
                    assert(self.entries@[n - 1] == (key, state));
                    assert(distinct_keys(self.entries@)) by {
                        assert forall|a: int, b: int| 0 <= a < b < self.entries@.len() implies (
                        #[trigger] self.entries@[a]).0 != (#[trigger] self.entries@[b]).0 by {
                            let off = pushed.len() - self.entries@.len();
                            assert(self.entries@[a] == pushed[a + off]);
                            assert(self.entries@[b] == pushed[b + off]);
                        }
                    }
                    lemma_lookup_at(self.entries@, n - 1);
                }
            },
        }
    }

    /// The state stored under `key`.
    pub fn get(&self, key: &DiagramKey) -> (r: Option<&S>)
        requires
            self.wf(),
        ensures
            match lookup(self@, *key) {
                Some(s) => r == Some(&s),
                None => r is None,
            },
    {
        match self.position(key) {
            Some(i) => {
                proof {
                    lemma_lookup_at(self.entries@, i as int);
                }
                Some(&self.entries[i].1)
            },
            None => {
                proof {
                    lemma_lookup_absent(self.entries@, *key);
                }
                None
            },
        }
    }

    /// How many diagrams are cached.
    pub fn len(&self) -> (r: usize)
        ensures
            r == self@.len(),
    {
        self.entries.len()
    }

    /// Forgets every diagram.
    pub fn clear(&mut self)
        ensures
            final(self).wf(),
            final(self)@ == Seq::<(DiagramKey, S)>::empty(),
    {
        self.entries.clear();
    }
}

/// A lowercase hex digit.
pub open spec fn hex_char(n: int) -> char {
    if n < 10 {
        (48 + n) as char
    } else {
        (87 + n) as char
    }
}

/// How serde_json writes one character inside a string literal: `"` and
/// `\` after a backslash, the short escapes for backspace, tab, newline,
/// form feed and carriage return, other control characters as `\u00XX`
/// with lowercase hex, everything else as itself.
pub open spec fn json_escape(c: char) -> Seq<char> {
    if c == '"' {
        seq!['\\', '"']
    } else if c == '\\' {
        seq!['\\', '\\']
    } else if c == '\x08' {
        seq!['\\', 'b']
    } else if c == '\t' {
        seq!['\\', 't']
    } else if c == '\n' {
        seq!['\\', 'n']
    } else if c == '\x0c' {
        seq!['\\', 'f']
    } else if c == '\r' {
        seq!['\\', 'r']
    } else if (c as u32) < 0x20 {
        seq!['\\', 'u', '0', '0', hex_char((c as u32 as int) / 16), hex_char((c as u32 as int) % 16)]
    } else {
        seq![c]
    }
}

/// The escaped characters of `s`, in order.
pub open spec fn json_escaped(s: Seq<char>) -> Seq<char>
    decreases s.len(),
{
    if s.len() == 0 {
        seq![]
    } else {
        json_escaped(s.drop_last()) + json_escape(s.last())
    }
}

/// A string as a JSON string literal, as `serde_json::to_string` writes it.
pub open spec fn json_quoted(s: Seq<char>) -> Seq<char> {
    seq!['"'] + json_escaped(s) + seq!['"']
}

/// `serde_json::to_string(s)`: `s` as a JSON string literal, quoted,
/// with the escapes of `json_escape` (serde_json's `ESCAPE` table).
#[verifier::external_body]
fn json_string(s: &str) -> (r: String)
    ensures
        r@ == json_quoted(s@),
{
    match serde_json::to_string(s) {
        Ok(v) => v,
        Err(_) => String::new(),
    }
}

fn push_json(out: &mut String, s: &str)
    ensures
        final(out)@ == old(out)@ + json_quoted(s@),
{
    let q = json_string(s);
    push_str(out, q.as_str());
}

/// The Mermaid site configuration for a palette, as JSON text: the
/// `base` theme, HTML labels off everywhere (the rasterizer cannot draw
/// foreignObject labels), and the palette in the theme variables.
pub open spec fn site_config_text(t: DiagramTheme) -> Seq<char> {
    "{\"theme\":\"base\",\"htmlLabels\":false,\"flowchart\":{\"htmlLabels\":false},\"fontFamily\":"@
        + json_quoted(t.font_body@)
        + ",\"themeVariables\":{\"background\":"@
        + json_quoted(t.background@)
        + ",\"mainBkg\":"@
        + json_quoted(t.surface@)
        + ",\"primaryColor\":"@
        + json_quoted(t.surface@)
        + ",\"primaryTextColor\":"@
        + json_quoted(t.text@)
        + ",\"primaryBorderColor\":"@
        + json_quoted(t.primary@)
        + ",\"secondaryColor\":"@
        + json_quoted(t.surface@)
        + ",\"secondaryTextColor\":"@
        + json_quoted(t.text@)
        + ",\"tertiaryColor\":"@
        + json_quoted(t.background@)
        + ",\"tertiaryTextColor\":"@
        + json_quoted(t.text@)
        + ",\"lineColor\":"@
        + json_quoted(t.muted@)
        + ",\"textColor\":"@
        + json_quoted(t.text@)
        + ",\"nodeBorder\":"@
        + json_quoted(t.primary@)
        + ",\"clusterBkg\":"@
        + json_quoted(t.background@)
        + ",\"clusterBorder\":"@
        + json_quoted(t.border@)
        + ",\"actorBkg\":"@
        + json_quoted(t.surface@)
        + ",\"actorBorder\":"@
        + json_quoted(t.primary@)
        + ",\"actorTextColor\":"@
        + json_quoted(t.text@)
        + ",\"actorLineColor\":"@
        + json_quoted(t.muted@)
        + ",\"signalColor\":"@
        + json_quoted(t.text@)
        + ",\"signalTextColor\":"@
        + json_quoted(t.text@)
        + ",\"noteBkgColor\":"@
        + json_quoted(t.surface@)
        + ",\"noteTextColor\":"@
        + json_quoted(t.text@)
        + ",\"noteBorderColor\":"@
        + json_quoted(t.border@)
        + ",\"labelBoxBkgColor\":"@
        + json_quoted(t.surface@)
        + ",\"labelTextColor\":"@
        + json_quoted(t.text@)
        + ",\"edgeLabelBackground\":"@
        + json_quoted(t.background@)
        + ",\"fontFamily\":"@
        + json_quoted(t.font_body@)
        + ",\"darkMode\":"@
        + (if t.dark { "true"@ } else { "false"@ })
        + "}}"@
}

/// Renders `source` with `merman`'s headless renderer under the site
/// configuration `config`, through the resvg-safe pipeline (no
/// foreignObject, existing `!important` CSS stripped, the canvas painted
/// `background`). Nothing is stated of the result: some diagrams (git
/// graphs without a seed, block diagrams) draw random ids, so one source
/// need not render the same way twice.
#[verifier::external_body]
fn render_mermaid(source: &str, config: &str, background: &str) -> (r: Result<Option<String>, String>) {
    let value: serde_json::Value = serde_json::from_str(config).map_err(|e| e.to_string())?;
    let pipeline = SvgPipeline::from_preset(SvgPipelinePreset::ResvgSafe)
        .with_postprocessor(CssOverridePostprocessor::new(CssOverridePolicy::StripExistingImportant))
        .with_postprocessor(RootBackgroundPostprocessor::new(background));
    let renderer = HeadlessRenderer::new()
        .with_site_config(MermaidConfig::from_value(value))
        .with_svg_pipeline(pipeline);
    renderer.render_svg_sync(source).map_err(|e| e.to_string())
}

/// What a render's outcome becomes: the SVG, the message for a source
/// in which no diagram was detected, or the renderer's error.
pub open spec fn spec_svg_outcome(rendered: Result<Option<String>, String>) -> Result<Seq<char>, Seq<char>> {
    match rendered {
        Ok(Some(svg)) => Ok(svg@),
        Ok(None) => Err("no mermaid diagram detected"@),
        Err(e) => Err(e@),
    }
}

pub open spec fn svg_view(r: Result<String, String>) -> Result<Seq<char>, Seq<char>> {
    match r {
        Ok(s) => Ok(s@),
        Err(e) => Err(e@),
    }
}

/// Turns what the renderer gave into the SVG or an error message.
pub fn svg_outcome(rendered: Result<Option<String>, String>) -> (r: Result<String, String>)
    ensures
        svg_view(r) == spec_svg_outcome(rendered),
{
    match rendered {
        Ok(Some(svg)) => Ok(svg),
        Ok(None) => {
            let mut e = String::new();
            push_str(&mut e, "no mermaid diagram detected");
            Err(e)
        },
        Err(e) => Err(e),
    }
}

/// Mermaid source to a themed standalone SVG: the source is rendered
/// under the theme's site configuration on its background, and the
/// outcome is whatever `svg_outcome` makes of the renderer's answer.
pub fn to_svg(source: &str, theme: &DiagramTheme) -> (r: Result<String, String>)
    ensures
        exists|rendered: Result<Option<String>, String>| svg_view(r) == spec_svg_outcome(rendered),
{
    let config = theme.site_config();
    let rendered = render_mermaid(source, config.as_str(), theme.background.as_str());
    svg_outcome(rendered)
}

} // verus!
