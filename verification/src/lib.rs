//! A verified parsing-and-indexing engine for textual unified-diff output.
//!
//! The crate turns the text produced by a version-control "show/diff" command
//! into a structured, randomly queryable representation: one record per
//! changed file, each holding an ordered list of hunks, each hunk holding
//! classified, byte-addressable lines.  All text is handled as bytes; the
//! surrounding (unverified) application converts between process output and
//! the byte values the library consumes.

pub mod log;
pub mod markdown;
pub mod offset;
pub mod patch;
pub mod proc;
pub mod repo;
pub mod scan;
pub mod stream;
pub mod util;
