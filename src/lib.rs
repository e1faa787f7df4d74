//! An indexed container format: many files in one, with a table of contents
//! that maps archived names to the offsets of their records.

/// Fixed-width little-endian integers and length-prefixed strings.
pub mod codec;

/// The metadata record of an archived file.
pub mod header;

/// Archives: their layout, opening, lookup and removal.
pub mod archive;

/// The table of contents.
pub mod toc;

/// What holds of archives built, reopened, pruned and walked.
pub mod lemmas;

/// Sessions that append files to an archive.
pub mod builder;

/// Walking through the archived files.
pub mod entries;

/// A view of one archived file.
pub mod entry;

/// Errors of archive operations.
pub mod error;

/// Archive-safe names.
pub mod safepath;
