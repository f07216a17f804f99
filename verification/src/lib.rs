//! A browsable projection of a remote resource hierarchy.
//!
//! The library keeps a flat, lexicographically sorted list of
//! `(path, value)` records and derives everything else from it:
//! range queries answer directory-style navigation, a prefix
//! compressor reconstructs the grouped tree view, and a renderer
//! prints nested values as indented text.  Fetching the records
//! from the remote side is driven as an explicit state machine so
//! that the surrounding program only performs the blocking calls.

pub mod pathstr;
pub mod value;
pub mod prefix;
pub mod config;
pub mod format;
pub mod session;
pub mod resolve;
