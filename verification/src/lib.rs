//! Verified core of a Markdown editor: text transforms, find and
//! replace, list and heading edits, the hybrid display mapping, the
//! command table, autosave policy, and the theme importer.
use vstd::prelude::*;

pub mod text;
pub mod editor;
pub mod commands;
pub mod base16;
pub mod bookmarks;
pub mod catalog;
pub mod diagram;
pub mod diff;

verus! {
} // verus!
