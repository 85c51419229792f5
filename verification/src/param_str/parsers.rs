//! The parsers of the templating mini-language: templates with optional
//! padding, comma-separated lists, and numeric ranges.

pub mod format;
pub mod list;
pub mod range;
