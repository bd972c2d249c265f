//! Dotted numbering of Markdown-style headings.
//!
//! A document is an ordered sequence of byte lines.  Heading lines (lines
//! whose first space-delimited token is a run of `#` characters) at or below
//! a configurable depth receive a dotted numbering token such as `2.1.3.`,
//! and a later pass can strip those tokens out again.  A sentinel comment
//! line at the end of a file records which of the two states the file is in,
//! so that running the transform twice returns the original text.

pub mod document;
pub mod laws;
pub mod line;
pub mod numbering;
pub mod pipeline;
