//! Verified core of a MediaWiki link-count pipeline.
//!
//! Three streaming passes over SQL dump bytes build, in turn, a directory of
//! redirect pages, a redirect map, and a counter of direct and indirect links
//! per page; post-processing filters the counter by a threshold and ranks the
//! survivors. The byte source is chunked at record (newline) boundaries, and
//! chunk buffers come from a bounded reusable pool.

use vstd::prelude::*;

pub mod buffer_queue;
pub mod chunked_reader;
pub mod cli;
pub mod link_count;
pub mod page_table;
pub mod pagelinks_table;
pub mod redirect_table;
pub mod sql_rows;
pub mod util;

verus! {

/// The failures the pipeline can report.
///
/// Input/output failures (unreadable input, unwritable output) are raised by
/// the caller that performs the actual file handling, before or around the
/// passes; they never arise inside the pipeline itself.
#[derive(Clone, Copy, Debug, PartialEq, Eq, Structural)]
pub enum Error {
    /// The namespace set handed to a pattern builder was empty, so no row
    /// pattern could be constructed.
    PatternConstruction,
    /// A non-final chunk contained no newline, so no record-aligned cut
    /// exists; the dump is corrupt.
    NoRecordBoundary,
    /// A captured numeric field does not fit the page-id range; the dump is
    /// corrupt or the row pattern has drifted.
    Conversion,
    /// An export-format name is not one of the supported formats.
    UnknownFormat,
}

} // verus!
