//! Turns a feed of bookmark entries into a static site: entries are
//! ranked by descending score (ties keep feed order), indexed by tag, each
//! tag's entries split into pages, and every page rendered to HTML. The
//! result is a list of files for the caller to write.
use vstd::prelude::*;

pub mod entry;
pub mod paginate;
pub mod rank;
pub mod render;
pub mod site;
pub mod tag_index;
pub mod text;

verus! {

/// Number of entries shown on one page of a tag.
pub const ENTRIES_PER_PAGE: usize = 10;

} // verus!
