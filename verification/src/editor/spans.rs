//! Style spans: what the Markdown styler reports for a stretch of
//! source, and the input to the hybrid display transform.
use vstd::prelude::*;
use core::ops::Range;

verus! {

/// The kind of a styled stretch of source.
#[derive(Debug, Clone, Copy, PartialEq, Eq)]
pub enum StyleKind {
    Strong,
    Emphasis,
    Strikethrough,
    InlineCode,
    Link,
    Heading(u8),
    ListMarker,
    TaskMarker(bool),
    QuoteMarker,
    FenceContent,
    Syntax(u8),
}

/// A styled byte range of the document.
#[derive(Debug, PartialEq, Eq)]
pub struct StyleSpan {
    pub range: Range<usize>,
    pub kind: StyleKind,
}

impl Clone for StyleSpan {
    fn clone(&self) -> (r: Self)
        ensures
            r == *self,
    {
        StyleSpan { range: self.range.start..self.range.end, kind: self.kind }
    }
}

} // verus!
