//! The command surface of the tool: what a caller can ask for.

use vstd::prelude::*;

verus! {

/// A command: emit the canonical form of one document, or report the semantic
/// difference of two, with `unified` lines of context around each change.
#[derive(Debug)]
pub enum Sub {
    Normalize { file_path: String },
    Diff { unified: usize, file_path1: String, file_path2: String },
}

} // verus!
