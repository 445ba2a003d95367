//! What can go wrong.

use vstd::prelude::*;

verus! {

/// Why a chapter could not be linked.
#[derive(Debug)]
pub enum TermlinkError {
    /// The processed events could not be written as Markdown.
    MarkdownSerialize(pulldown_cmark_to_cmark::Error),
}

} // verus!
