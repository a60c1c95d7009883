//! A verified core for a file-based personal knowledge store.
//!
//! Each note is a markdown file that begins with a structured metadata
//! header.  This crate holds the logic that is worth proving: the header
//! codec, the search patterns, and the note store with its tag and link
//! operations.  All file and terminal I/O lives outside, in the
//! surrounding application, which hands plain values in and out.

pub mod codec;
pub mod config;
pub mod pattern;
pub mod store;
pub mod tags;
pub mod metadata;
pub mod text;
pub mod timestamp;


use vstd::prelude::*;

verus! {

/// Character sequences accepted as note text fields: a scalar value lives
/// on a single header line, so it must not contain a line break.
pub open spec fn line_safe(s: Seq<char>) -> bool {
    forall|i: int| 0 <= i < s.len() ==> s[i] != '\n'
}

} // verus!
