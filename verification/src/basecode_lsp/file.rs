//! What filename completion hands back for each directory entry.
//!
//! The candidate directory slices of a line come from
//! [`crate::file::path_prefixes`]; reading the directories themselves is
//! filesystem work and stays with the caller, which turns each entry into a
//! [`FileItem`] anchored at the separator position of its slice.

use vstd::prelude::*;

verus! {

/// One completion candidate from a directory listing: the entry's name,
/// the anchor position on the line, and whether the entry is a directory.
#[derive(Clone, Debug)]
pub struct FileItem {
    pub filename: String,
    pub pos: usize,
    pub is_dir: bool,
}

} // verus!
