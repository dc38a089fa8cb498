//! Markdown workspace scanner.
//!
//! Given a snapshot of what a directory tree looks like on disk, the scanner
//! builds the filtered view a markdown editor shows: only markdown files and
//! the folders that (directly or transitively) contain at least one of them,
//! with the children of every folder sorted folders-first and then by
//! case-insensitive name. Reading the live filesystem into a snapshot, and
//! reading or writing file contents, are plain I/O left to the host binary;
//! everything that decides the shape of the resulting tree lives here.

pub mod model;
pub mod order;
pub mod paths;
pub mod scan;
