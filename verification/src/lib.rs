//! A library for finding the largest directories under a chosen root.
//!
//! The heart of the library is a verified, non-recursive directory-size
//! aggregator: it walks a snapshot of a directory tree with an explicit
//! work stack, computes the total space consumed by every directory's
//! subtree, and emits one entry per directory in strict post-order.
//! Around it sit a verified ranking routine (sort by descending size),
//! a size formatter, delimited-text export of the ranked entries, and
//! the session state that accumulates streamed results.

use vstd::prelude::*;

pub mod model;
pub mod order;
pub mod totals;
pub mod aggregate;
pub mod rank;
pub mod format;
pub mod export;
pub mod resolve;
pub mod session;
pub mod validate;

verus! {

/// One result of a scan: a directory (or file) path, the total number of
/// bytes allocated for its subtree, and an optional last-accessed time
/// (seconds since the Unix epoch), filled in lazily for displayed rows.
pub struct FileEntry {
    pub file: String,
    pub size: u64,
    pub accessed: Option<i64>,
}

} // verus!
