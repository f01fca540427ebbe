//! Line-oriented literal pattern matching with ANSI highlighting, and a
//! directory-entry filter.
//!
//! The core is a scanner that finds every non-overlapping occurrence of a
//! literal byte pattern in a line and renders the line with each occurrence
//! wrapped in a bold-yellow start marker and a reset marker. Around it sit
//! the per-line record builder (`line number:highlighted line`), the
//! argument parsers of the two command-line tools, and the hidden-entry
//! filter of the directory lister. All text is handled as bytes; matching
//! is exact and case-sensitive.

pub mod lister;
pub mod matcher;
pub mod render;
pub mod strip;
